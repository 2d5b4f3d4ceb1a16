use metaboss::parse::{
    derive_enum_name, derive_start_code, derive_table_ident, parse_error_entries, ParseError,
};
use metaboss::render::{convert_to_wtf_error, generate_phf_map_var, hex_upper};

#[test]
fn header_line_is_exact() {
    let h = generate_phf_map_var("ANCHOR_ERROR");
    assert_eq!(
        h,
        "pub static ANCHOR_ERROR: phf::Map<&'static str, &'static str> = phf_map! {\n"
    );
}

#[test]
fn table_ident_strips_extension_and_uppercases() {
    assert_eq!(derive_table_ident("anchor.rs"), "ANCHOR");
    assert_eq!(derive_table_ident("auction-house.rs"), "AUCTION_HOUSE");
    assert_eq!(derive_table_ident("candy-core-error.rs"), "CANDY_CORE_ERROR");
}

#[test]
fn enum_name_follows_domain_conventions() {
    assert_eq!(derive_enum_name("anchor_lang.rs"), "ErrorCode");
    assert_eq!(derive_enum_name("candy-core-error.rs"), "CandyError");
    assert_eq!(derive_enum_name("auction-house.rs"), "AuctionHouse");
}

#[test]
fn start_code_follows_domain_conventions() {
    assert_eq!(derive_start_code("anchor.rs", "whatever"), 100);
    assert_eq!(derive_start_code("candy-machine.rs", "#[msg(\"x\")]"), 6000);
    assert_eq!(derive_start_code("metadata.rs", "no attributes here"), 0);
}

#[test]
fn base_framework_scenario_renders_hex_keys_from_100() {
    let src = "pub enum ErrorCode {\n#[error(\"Account not initialized\")]\nNotInitialized,\n#[error(\"Invalid owner\")]\nInvalidOwner,\n}\n";
    let out = convert_to_wtf_error("anchor.rs", src).unwrap();
    let expected = "pub static ANCHOR: phf::Map<&'static str, &'static str> = phf_map! {\n    \"64\" => \"NotInitialized: Account not initialized\",\n    \"65\" => \"InvalidOwner: Invalid owner\",\n};\n\n";
    assert_eq!(out, expected);
}

#[test]
fn override_resets_counter_and_drives_next_code() {
    let src = "pub enum CandyMachine {\n#[msg(\"Numerical overflow\")]\nOverflow = 6010,\nNextThing,\n}\n";
    let entries = parse_error_entries("candy-machine.rs", src).unwrap();
    assert_eq!(entries.len(), 2);
    assert_eq!(entries[0].code, 6010);
    assert_eq!(entries[0].symbol, "Overflow");
    assert_eq!(entries[0].message.as_deref(), Some("Numerical overflow"));
    assert_eq!(entries[1].code, 6011);
    assert_eq!(entries[1].symbol, "NextThing");
    assert!(entries[1].message.is_none());
    let out = convert_to_wtf_error("candy-machine.rs", src).unwrap();
    assert!(out.contains("    \"177A\" => \"Overflow: Numerical overflow\",\n"));
    assert!(out.contains("    \"177B\" => \"NextThing\",\n"));
}

#[test]
fn missing_closing_brace_is_malformed() {
    let src = "pub enum AuctionHouse {\nPublicKeyMismatch,\n";
    assert_eq!(
        convert_to_wtf_error("auction-house.rs", src),
        Err(ParseError::MalformedEnum)
    );
}

#[test]
fn absent_enum_name_is_enum_not_found() {
    let src = "pub enum SomethingElse {\nFoo,\n}\n";
    assert_eq!(
        convert_to_wtf_error("auction-house.rs", src),
        Err(ParseError::EnumNotFound)
    );
}

#[test]
fn variant_without_comma_is_malformed() {
    let src = "pub enum Metadata {\nFoo\n}\n";
    assert_eq!(
        convert_to_wtf_error("metadata.rs", src),
        Err(ParseError::MalformedEnum)
    );
}

#[test]
fn non_integer_override_is_invalid() {
    let src = "pub enum Metadata {\nFoo = bar,\n}\n";
    assert_eq!(
        convert_to_wtf_error("metadata.rs", src),
        Err(ParseError::InvalidOverrideCode)
    );
}

#[test]
fn negative_override_is_invalid() {
    let src = "pub enum Metadata {\nFoo = -5,\n}\n";
    assert_eq!(
        convert_to_wtf_error("metadata.rs", src),
        Err(ParseError::InvalidOverrideCode)
    );
}

#[test]
fn converting_twice_yields_identical_output() {
    let src = "pub enum Metadata {\n// a comment\n\nInstructionUnpackError,\nInstructionPackError,\n}\n";
    let once = convert_to_wtf_error("metadata.rs", src);
    let twice = convert_to_wtf_error("metadata.rs", src);
    assert_eq!(once, twice);
    let out = once.unwrap();
    assert!(out.contains("    \"0\" => \"InstructionUnpackError\",\n"));
    assert!(out.contains("    \"1\" => \"InstructionPackError\",\n"));
}

#[test]
fn comments_and_blank_lines_are_skipped() {
    let src = "pub enum Metadata {\n\n// ignored\n/ also ignored\nFirst,\n\nSecond,\n}\ntrailing";
    let entries = parse_error_entries("metadata.rs", src).unwrap();
    assert_eq!(entries.len(), 2);
    assert_eq!(entries[0].code, 0);
    assert_eq!(entries[1].code, 1);
}

#[test]
fn later_attribute_overwrites_pending_message() {
    let src = "pub enum Metadata {\n#[error(\"first\")]\n#[error(\"second\")]\nOnlyVariant,\n}\n";
    let entries = parse_error_entries("metadata.rs", src).unwrap();
    assert_eq!(entries.len(), 1);
    assert_eq!(entries[0].message.as_deref(), Some("second"));
}

#[test]
fn quoted_continuation_lines_are_ignored() {
    let src = "pub enum Metadata {\n#[error(\"message start\")]\n\"a continuation\"\nRealVariant,\n}\n";
    let entries = parse_error_entries("metadata.rs", src).unwrap();
    assert_eq!(entries.len(), 1);
    assert_eq!(entries[0].symbol, "RealVariant");
    assert_eq!(entries[0].message.as_deref(), Some("message start"));
}

#[test]
fn hex_rendering_is_uppercase_without_prefix() {
    assert_eq!(hex_upper(0), "0");
    assert_eq!(hex_upper(10), "A");
    assert_eq!(hex_upper(255), "FF");
    assert_eq!(hex_upper(6010), "177A");
    assert_eq!(hex_upper(1_048_576), "100000");
}

#[test]
fn terminator_stops_parsing_before_later_variants() {
    let src = "pub enum Metadata {\nFirst,\n}\nNotParsed,\n";
    let entries = parse_error_entries("metadata.rs", src).unwrap();
    assert_eq!(entries.len(), 1);
    assert_eq!(entries[0].symbol, "First");
}

#[test]
fn candy_core_uses_the_fixed_candy_error_name() {
    let src = "pub enum CandyError {\n#[msg(\"Missing config lines\")]\nMissingConfig,\n}\n";
    let out = convert_to_wtf_error("candy-core-error.rs", src).unwrap();
    assert!(out.starts_with("pub static CANDY_CORE_ERROR:"));
    assert!(out.contains("    \"1770\" => \"MissingConfig: Missing config lines\",\n"));
}
