use metaboss::catalog::{
    domain_from_entries, find_errors, find_tm_error, lookup_single_domain, Domain, DomainCatalog,
    TableEntry,
};
use metaboss::parse::parse_error_entries;

fn entry(key: &str, value: &str) -> TableEntry {
    TableEntry { key: String::from(key), value: String::from(value) }
}

fn domain(name: &str, entries: Vec<TableEntry>) -> Domain {
    Domain { name: String::from(name), entries }
}

fn small_catalog() -> DomainCatalog {
    DomainCatalog {
        domains: vec![
            domain("Anchor Program", vec![entry("64", "InstructionMissing")]),
            domain(
                "Token Metadata",
                vec![entry("64", "NotRentExempt: Lamport balance below rent-exempt minimum"), entry("1A", "NotMutable")],
            ),
            domain("Auction House", vec![entry("64", "PublicKeyMismatch")]),
        ],
    }
}

#[test]
fn code_in_one_domain_gives_one_result() {
    let cat = small_catalog();
    let found = find_errors(&cat, "1A");
    assert_eq!(found.len(), 1);
    assert_eq!(found[0].domain, "Token Metadata");
    assert_eq!(found[0].message, "NotMutable");
}

#[test]
fn unknown_code_gives_empty_result() {
    let cat = small_catalog();
    let found = find_errors(&cat, "FFFF");
    assert!(found.is_empty());
}

#[test]
fn lookup_is_case_insensitive() {
    let cat = small_catalog();
    let lower = find_errors(&cat, "1a");
    let upper = find_errors(&cat, "1A");
    assert_eq!(lower.len(), 1);
    assert_eq!(lower.len(), upper.len());
    assert_eq!(lower[0].domain, upper[0].domain);
    assert_eq!(lower[0].message, upper[0].message);
}

#[test]
fn shared_code_reports_domains_in_catalog_order() {
    let cat = small_catalog();
    let found = find_errors(&cat, "64");
    assert_eq!(found.len(), 3);
    assert_eq!(found[0].domain, "Anchor Program");
    assert_eq!(found[1].domain, "Token Metadata");
    assert_eq!(found[2].domain, "Auction House");
}

#[test]
fn metadata_and_auction_house_both_match_in_order() {
    let cat = DomainCatalog {
        domains: vec![
            domain("Token Metadata", vec![entry("177A", "Overflow: Numerical overflow")]),
            domain("Auction House", vec![entry("177A", "NoPayerPresent")]),
        ],
    };
    let found = find_errors(&cat, "177a");
    assert_eq!(found.len(), 2);
    assert_eq!(found[0].domain, "Token Metadata");
    assert_eq!(found[0].message, "Overflow: Numerical overflow");
    assert_eq!(found[1].domain, "Auction House");
    assert_eq!(found[1].message, "NoPayerPresent");
}

#[test]
fn single_domain_lookup_probes_only_that_domain() {
    let cat = small_catalog();
    assert_eq!(
        find_tm_error(&cat, "64").as_deref(),
        Some("NotRentExempt: Lamport balance below rent-exempt minimum")
    );
    assert_eq!(find_tm_error(&cat, "1a").as_deref(), Some("NotMutable"));
    assert!(find_tm_error(&cat, "FFFF").is_none());
    assert_eq!(
        lookup_single_domain(&cat, "64", "Auction House").as_deref(),
        Some("PublicKeyMismatch")
    );
    assert!(lookup_single_domain(&cat, "64", "Candy Guard").is_none());
}

#[test]
fn parsed_domain_loads_and_serves_lookups() {
    let src = "pub enum AuctionHouse {\n#[msg(\"Bump seed not in hash map\")]\nBumpSeedNotInHashMap,\nInvalidSellerDiscountTokenAccount,\n}\n";
    let entries = parse_error_entries("auction-house.rs", src).unwrap();
    let d = domain_from_entries("Auction House", &entries);
    let cat = DomainCatalog { domains: vec![d] };
    let found = find_errors(&cat, "1771");
    assert_eq!(found.len(), 1);
    assert_eq!(found[0].domain, "Auction House");
    assert_eq!(found[0].message, "InvalidSellerDiscountTokenAccount");
    let with_message = find_errors(&cat, "1770");
    assert_eq!(with_message.len(), 1);
    assert_eq!(
        with_message[0].message,
        "BumpSeedNotInHashMap: Bump seed not in hash map"
    );
}

#[test]
fn standard_names_cover_the_seven_domains() {
    let names = metaboss::catalog::standard_domain_names();
    assert_eq!(names.len(), 7);
    assert_eq!(names[0], "Anchor Program");
    assert_eq!(names[1], "Token Metadata");
    assert_eq!(names[6], "Candy Guard");
}
