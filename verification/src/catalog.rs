//! The domain catalog and the lookup over it: an ordered, immutable list of
//! domains, each holding a table keyed by upper-case hexadecimal codes, and a
//! case-insensitive probe of every domain for a queried code.

use crate::parse::{entries_view, EntryModel, ErrorEntry};
use crate::render::{hex_upper, spec_hex};
use crate::text::{lemma_to_upper_idempotent, spec_to_upper, str_eq, strs_view, to_upper_str};
use vstd::prelude::*;

verus! {

/// One key/value pair of a domain's table.
pub struct TableEntry {
    pub key: String,
    pub value: String,
}

impl View for TableEntry {
    type V = (Seq<char>, Seq<char>);

    open spec fn view(&self) -> (Seq<char>, Seq<char>) {
        (self.key@, self.value@)
    }
}

/// The mathematical view of one domain.
pub struct DomainModel {
    pub name: Seq<char>,
    pub entries: Seq<(Seq<char>, Seq<char>)>,
}

/// One program domain: its display name and its compiled code table, keyed
/// by upper-case hexadecimal codes.
pub struct Domain {
    pub name: String,
    pub entries: Vec<TableEntry>,
}

impl View for Domain {
    type V = DomainModel;

    open spec fn view(&self) -> DomainModel {
        DomainModel {
            name: self.name@,
            entries: self.entries@.map_values(|t: TableEntry| t@),
        }
    }
}

/// The fixed, ordered list of domains, built once and never changed.
pub struct DomainCatalog {
    pub domains: Vec<Domain>,
}

impl View for DomainCatalog {
    type V = Seq<DomainModel>;

    open spec fn view(&self) -> Seq<DomainModel> {
        self.domains@.map_values(|d: Domain| d@)
    }
}

/// The mathematical view of one lookup result.
pub struct FoundModel {
    pub domain: Seq<char>,
    pub message: Seq<char>,
}

/// One lookup result: the name of a domain that recognizes the code, and
/// that domain's message for it.
pub struct FoundError {
    pub domain: String,
    pub message: String,
}

impl View for FoundError {
    type V = FoundModel;

    open spec fn view(&self) -> FoundModel {
        FoundModel { domain: self.domain@, message: self.message@ }
    }
}

/// The views of a sequence of lookup results.
pub open spec fn founds_view(fs: Seq<FoundError>) -> Seq<FoundModel> {
    fs.map_values(|f: FoundError| f@)
}

/// The value stored under `key`, taking the first pair whose key matches.
pub open spec fn spec_probe(entries: Seq<(Seq<char>, Seq<char>)>, key: Seq<char>) -> Option<
    Seq<char>,
>
    decreases entries.len(),
{
    if entries.len() == 0 {
        None
    } else if entries[0].0 == key {
        Some(entries[0].1)
    } else {
        spec_probe(entries.skip(1), key)
    }
}

/// Every domain probed for `key`, in catalog order; a domain that holds the
/// key contributes its name and stored value.
pub open spec fn spec_lookup(ds: Seq<DomainModel>, key: Seq<char>) -> Seq<FoundModel>
    decreases ds.len(),
{
    if ds.len() == 0 {
        Seq::empty()
    } else {
        (match spec_probe(ds[0].entries, key) {
            Some(v) => seq![FoundModel { domain: ds[0].name, message: v }],
            None => Seq::empty(),
        }) + spec_lookup(ds.skip(1), key)
    }
}

/// The probe of the first domain carrying `name`, or nothing when no domain
/// does.
pub open spec fn spec_lookup_single(
    ds: Seq<DomainModel>,
    key: Seq<char>,
    name: Seq<char>,
) -> Option<Seq<char>>
    decreases ds.len(),
{
    if ds.len() == 0 {
        None
    } else if ds[0].name == name {
        spec_probe(ds[0].entries, key)
    } else {
        spec_lookup_single(ds.skip(1), key, name)
    }
}

fn probe(d: &Domain, key: &str) -> (r: Option<String>)
    ensures
        match r {
            Some(v) => spec_probe(d@.entries, key@) == Some(v@),
            None => spec_probe(d@.entries, key@) is None,
        },
{
    let ghost ev = d@.entries;
    let mut j: usize = 0;
    proof {
        assert(ev.skip(0) =~= ev);
    }
    while j < d.entries.len()
        invariant
            0 <= j <= d.entries.len(),
            ev == d@.entries,
            ev.len() == d.entries@.len(),
            spec_probe(ev, key@) == spec_probe(ev.skip(j as int), key@),
        decreases d.entries.len() - j,
    {
        proof {
            assert(ev[j as int] == d.entries@[j as int]@);
        }
        if str_eq(d.entries[j].key.as_str(), key) {
            proof {
                assert(ev.skip(j as int)[0] == ev[j as int]);
            }
            return Some(d.entries[j].value.clone());
        }
        proof {
            assert(ev.skip(j as int)[0] == ev[j as int]);
            assert(ev.skip(j as int).skip(1) =~= ev.skip(j + 1));
        }
        j += 1;
    }
    None
}

/// Looks a code up in every domain of the catalog, in catalog order.
///
/// The code is normalized to upper case first, so lookups are
/// case-insensitive. An empty result is the normal outcome for an unknown
/// code, not an error.
pub fn find_errors(catalog: &DomainCatalog, hex_code: &str) -> (r: Vec<FoundError>)
    ensures
        founds_view(r@) == spec_lookup(catalog@, spec_to_upper(hex_code@)),
{
    let key = to_upper_str(hex_code);
    let ghost catv = catalog@;
    let ghost keyv = spec_to_upper(hex_code@);
    let mut out: Vec<FoundError> = Vec::new();
    let mut i: usize = 0;
    proof {
        assert(catv.skip(0) =~= catv);
        assert(founds_view(out@) + spec_lookup(catv, keyv) =~= spec_lookup(catv, keyv));
    }
    while i < catalog.domains.len()
        invariant
            0 <= i <= catalog.domains.len(),
            catv == catalog@,
            catv.len() == catalog.domains@.len(),
            keyv == key@,
            spec_lookup(catv, keyv) == founds_view(out@) + spec_lookup(catv.skip(i as int), keyv),
        decreases catalog.domains.len() - i,
    {
        let d = &catalog.domains[i];
        proof {
            assert(catv[i as int] == catalog.domains@[i as int]@);
            assert(catv.skip(i as int)[0] == catv[i as int]);
            assert(catv.skip(i as int).skip(1) =~= catv.skip(i + 1));
        }
        match probe(d, key.as_str()) {
            Some(v) => {
                let ghost old_view = founds_view(out@);
                out.push(FoundError { domain: d.name.clone(), message: v });
                proof {
                    assert(founds_view(out@) =~= old_view + seq![
                        FoundModel { domain: catv[i as int].name, message: v@ },
                    ]);
                    assert(spec_lookup(catv.skip(i as int), keyv) == seq![
                        FoundModel { domain: catv[i as int].name, message: v@ },
                    ] + spec_lookup(catv.skip(i + 1), keyv));
                    assert(founds_view(out@) + spec_lookup(catv.skip(i + 1), keyv) =~= old_view
                        + spec_lookup(catv.skip(i as int), keyv));
                }
            },
            None => {
                proof {
                    assert(spec_lookup(catv.skip(i as int), keyv) == spec_lookup(
                        catv.skip(i + 1),
                        keyv,
                    ));
                }
            },
        }
        i += 1;
    }
    proof {
        assert(spec_lookup(catv.skip(catv.len() as int), keyv) == Seq::<FoundModel>::empty());
        assert(founds_view(out@) + Seq::<FoundModel>::empty() =~= founds_view(out@));
    }
    out
}

/// Looks a code up in the one domain carrying `domain_name`, with the same
/// case normalization as `find_errors`.
pub fn lookup_single_domain(catalog: &DomainCatalog, hex_code: &str, domain_name: &str) -> (r:
    Option<String>)
    ensures
        match r {
            Some(v) => spec_lookup_single(catalog@, spec_to_upper(hex_code@), domain_name@)
                == Some(v@),
            None => spec_lookup_single(catalog@, spec_to_upper(hex_code@), domain_name@) is None,
        },
{
    let key = to_upper_str(hex_code);
    let ghost catv = catalog@;
    let ghost keyv = spec_to_upper(hex_code@);
    let mut i: usize = 0;
    proof {
        assert(catv.skip(0) =~= catv);
    }
    while i < catalog.domains.len()
        invariant
            0 <= i <= catalog.domains.len(),
            catv == catalog@,
            catv.len() == catalog.domains@.len(),
            keyv == key@,
            keyv == spec_to_upper(hex_code@),
            spec_lookup_single(catv, keyv, domain_name@) == spec_lookup_single(
                catv.skip(i as int),
                keyv,
                domain_name@,
            ),
        decreases catalog.domains.len() - i,
    {
        let d = &catalog.domains[i];
        proof {
            assert(catv[i as int] == catalog.domains@[i as int]@);
            assert(catv.skip(i as int)[0] == catv[i as int]);
            assert(catv.skip(i as int).skip(1) =~= catv.skip(i + 1));
        }
        if str_eq(d.name.as_str(), domain_name) {
            let r = probe(d, key.as_str());
            proof {
                assert(spec_lookup_single(catv.skip(i as int), keyv, domain_name@) == spec_probe(
                    catv[i as int].entries,
                    keyv,
                ));
            }
            return r;
        }
        i += 1;
    }
    None
}

/// Looks a code up in the metadata domain alone.
pub fn find_tm_error(catalog: &DomainCatalog, hex_code: &str) -> (r: Option<String>)
    ensures
        match r {
            Some(v) => spec_lookup_single(catalog@, spec_to_upper(hex_code@), "Token Metadata"@)
                == Some(v@),
            None => spec_lookup_single(
                catalog@,
                spec_to_upper(hex_code@),
                "Token Metadata"@,
            ) is None,
        },
{
    lookup_single_domain(catalog, hex_code, "Token Metadata")
}

/// The table pair a parsed entry loads as: the code in upper-case
/// hexadecimal as the key, the symbol — with `: ` and the message appended
/// when one is present — as the value.
pub open spec fn spec_table_pair(e: EntryModel) -> (Seq<char>, Seq<char>) {
    (
        spec_hex(e.code),
        e.symbol + (match e.message {
            Some(m) => ": "@ + m,
            None => Seq::empty(),
        }),
    )
}

/// Loads one domain from its parsed entries, deriving each table pair by
/// `spec_table_pair`.
pub fn domain_from_entries(name: &str, entries: &Vec<ErrorEntry>) -> (r: Domain)
    ensures
        r@.name == name@,
        r@.entries == entries_view(entries@).map_values(|e: EntryModel| spec_table_pair(e)),
{
    let ghost pairs = entries_view(entries@).map_values(|e: EntryModel| spec_table_pair(e));
    let mut table: Vec<TableEntry> = Vec::new();
    let mut i: usize = 0;
    while i < entries.len()
        invariant
            0 <= i <= entries.len(),
            pairs == entries_view(entries@).map_values(|e: EntryModel| spec_table_pair(e)),
            pairs.len() == entries@.len(),
            table@.map_values(|t: TableEntry| t@) == pairs.take(i as int),
        decreases entries.len() - i,
    {
        let e = &entries[i];
        let key = hex_upper(e.code);
        let mut value = String::new();
        value.append(e.symbol.as_str());
        match &e.message {
            Some(m) => {
                value.append(": ");
                value.append(m.as_str());
            },
            None => {},
        }
        let ghost old_map = table@.map_values(|t: TableEntry| t@);
        let ghost kv = (key@, value@);
        table.push(TableEntry { key, value });
        proof {
            assert(pairs[i as int] == spec_table_pair(entries@[i as int]@));
            assert(kv.1 =~= spec_table_pair(entries@[i as int]@).1);
            assert(kv.0 == spec_table_pair(entries@[i as int]@).0);
            assert(kv == pairs[i as int]);
            assert(table@.map_values(|t: TableEntry| t@) =~= old_map.push(kv));
            assert(pairs.take(i + 1) =~= pairs.take(i as int).push(pairs[i as int]));
        }
        i += 1;
    }
    proof {
        assert(pairs.take(entries@.len() as int) =~= pairs);
    }
    Domain { name: String::from_str(name), entries: table }
}

/// The display names of the standard domains, in the order the catalog
/// declares them: the base execution framework, the metadata program, the
/// auction-house program and its auctioneer, and the three minting programs.
pub fn standard_domain_names() -> (r: Vec<String>)
    ensures
        strs_view(r@) == seq![
            "Anchor Program"@,
            "Token Metadata"@,
            "Auction House"@,
            "Auctioneer"@,
            "Candy Machine"@,
            "Candy Core"@,
            "Candy Guard"@,
        ],
{
    let mut names: Vec<String> = Vec::new();
    names.push(String::from_str("Anchor Program"));
    names.push(String::from_str("Token Metadata"));
    names.push(String::from_str("Auction House"));
    names.push(String::from_str("Auctioneer"));
    names.push(String::from_str("Candy Machine"));
    names.push(String::from_str("Candy Core"));
    names.push(String::from_str("Candy Guard"));
    proof {
        assert(strs_view(names@) =~= seq![
            "Anchor Program"@,
            "Token Metadata"@,
            "Auction House"@,
            "Auctioneer"@,
            "Candy Machine"@,
            "Candy Core"@,
            "Candy Guard"@,
        ]);
    }
    names
}

/// How many domains recognize `key`.
pub open spec fn count_matching(ds: Seq<DomainModel>, key: Seq<char>) -> nat
    decreases ds.len(),
{
    if ds.len() == 0 {
        0
    } else {
        (if spec_probe(ds[0].entries, key) is Some {
            1nat
        } else {
            0nat
        }) + count_matching(ds.skip(1), key)
    }
}

/// A lookup returns one result per domain that recognizes the code: exactly
/// one result for a code present in exactly one domain, and an empty result
/// for a code present in none.
pub proof fn lemma_lookup_count(ds: Seq<DomainModel>, key: Seq<char>)
    ensures
        spec_lookup(ds, key).len() == count_matching(ds, key),
        count_matching(ds, key) == 1 ==> spec_lookup(ds, key).len() == 1,
        count_matching(ds, key) == 0 ==> spec_lookup(ds, key) == Seq::<FoundModel>::empty(),
    decreases ds.len(),
{
    if ds.len() > 0 {
        lemma_lookup_count(ds.skip(1), key);
    }
    if spec_lookup(ds, key).len() == 0 {
        assert(spec_lookup(ds, key) =~= Seq::<FoundModel>::empty());
    }
}

/// Lookup is case-insensitive: since `find_errors` upper-cases its argument,
/// a code already in upper case finds exactly what its mixed-case form
/// finds.
pub proof fn lemma_lookup_case_insensitive(ds: Seq<DomainModel>, code: Seq<char>)
    ensures
        spec_lookup(ds, spec_to_upper(spec_to_upper(code))) == spec_lookup(
            ds,
            spec_to_upper(code),
        ),
{
    lemma_to_upper_idempotent(code);
}

} // verus!
