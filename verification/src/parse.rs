//! The enum-source parser: turns the raw source text of one domain's error
//! enumeration into an ordered sequence of `(code, symbol, message)` entries.
//!
//! The expected enumeration name, the table identifier and the starting code
//! are all derived from the domain's file name and source text by the fixed
//! conventions stated on the spec functions below.

use crate::text::{
    contains_sub, find_char, find_sub, lemma_find_char_first, lemma_find_sub_first, match_at,
    parse_u64,
    remove_all, spec_contains, spec_find_char, spec_find_sub, spec_parse_u64, spec_remove_all,
    spec_split, spec_to_upper, spec_trim, split, str_eq, strs_view, to_upper_str, trim, upper_char,
};
use vstd::prelude::*;

verus! {

/// Why a domain's source could not be parsed.
#[derive(Clone, Copy, Debug, PartialEq, Eq, Structural)]
pub enum ParseError {
    /// The expected enumeration name does not occur in the source text.
    EnumNotFound,
    /// The enumeration body is structurally broken: the name stands too close
    /// to the end of the text, no closing brace follows it, or a variant line
    /// has no comma.
    MalformedEnum,
    /// An explicit `= N` override is not a non-negative integer that fits in
    /// 64 bits.
    InvalidOverrideCode,
}

/// The mathematical view of one parsed error entry.
pub struct EntryModel {
    pub code: nat,
    pub symbol: Seq<char>,
    pub message: Option<Seq<char>>,
}

/// One parsed error entry: a non-negative code, the variant's symbolic name,
/// and the message of the attribute line that preceded it, if one did.
pub struct ErrorEntry {
    pub code: u128,
    pub symbol: String,
    pub message: Option<String>,
}

impl View for ErrorEntry {
    type V = EntryModel;

    open spec fn view(&self) -> EntryModel {
        EntryModel {
            code: self.code as nat,
            symbol: self.symbol@,
            message: match self.message {
                Some(m) => Some(m@),
                None => None,
            },
        }
    }
}

/// The views of a sequence of entries.
pub open spec fn entries_view(es: Seq<ErrorEntry>) -> Seq<EntryModel> {
    es.map_values(|e: ErrorEntry| e@)
}

/// A dash mapped to a space; all other characters unchanged.
pub open spec fn dash_to_space(c: char) -> char {
    if c == '-' {
        ' '
    } else {
        c
    }
}

/// The space-delimited words of the file name after its `.rs` ending is
/// removed and every dash is replaced by a space.
pub open spec fn spec_name_words(file_name: Seq<char>) -> Seq<Seq<char>> {
    spec_split(spec_remove_all(file_name, ".rs"@).map_values(|c: char| dash_to_space(c)), ' ')
}

/// The words joined with `sep` between them.
pub open spec fn spec_join(ws: Seq<Seq<char>>, sep: Seq<char>) -> Seq<char>
    decreases ws.len(),
{
    if ws.len() == 0 {
        Seq::empty()
    } else if ws.len() == 1 {
        ws[0]
    } else {
        ws[0] + sep + spec_join(ws.skip(1), sep)
    }
}

/// The identifier of a domain's rendered table: each word of the file-derived
/// name upper-cased, the words joined with underscores.
pub open spec fn spec_table_ident(file_name: Seq<char>) -> Seq<char> {
    spec_join(spec_name_words(file_name).map_values(|w: Seq<char>| spec_to_upper(w)), "_"@)
}

/// A word with its first character upper-cased and the remainder unchanged.
pub open spec fn spec_capitalize(w: Seq<char>) -> Seq<char> {
    if w.len() == 0 {
        w
    } else {
        seq![upper_char(w[0])] + w.skip(1)
    }
}

/// The enumeration name expected in a domain's source text: the fixed name
/// `ErrorCode` for the base-framework domain (the file name contains
/// `anchor`), the fixed name `CandyError` for the core minting domain (the
/// table identifier is `CANDY_CORE_ERROR`), and otherwise the capitalized
/// words of the file-derived name joined without a separator.
pub open spec fn spec_enum_name(file_name: Seq<char>) -> Seq<char> {
    if spec_contains(file_name, "anchor"@) {
        "ErrorCode"@
    } else if spec_table_ident(file_name) == "CANDY_CORE_ERROR"@ {
        "CandyError"@
    } else {
        spec_join(spec_name_words(file_name).map_values(|w: Seq<char>| spec_capitalize(w)), Seq::empty())
    }
}

/// The first code of a domain: 100 for the base-framework domain, else 6000
/// when the source text carries message attributes (`#[msg`), else 0.
pub open spec fn spec_start_code(file_name: Seq<char>, contents: Seq<char>) -> nat {
    if spec_contains(file_name, "anchor"@) {
        100
    } else if spec_contains(contents, "#[msg"@) {
        6000
    } else {
        0
    }
}

/// Appending one more word to a join adds a separator exactly when words
/// were already present.
proof fn lemma_join_push(ws: Seq<Seq<char>>, w: Seq<char>, sep: Seq<char>)
    ensures
        spec_join(ws.push(w), sep) == if ws.len() == 0 {
            w
        } else {
            spec_join(ws, sep) + sep + w
        },
    decreases ws.len(),
{
    if ws.len() == 0 {
        assert(ws.push(w).len() == 1);
        assert(ws.push(w)[0] == w);
    } else if ws.len() == 1 {
        assert(ws.push(w)[0] == ws[0]);
        assert(ws.push(w).skip(1) =~= seq![w]);
        assert(spec_join(seq![w], sep) == w);
        assert(spec_join(ws, sep) == ws[0]);
    } else {
        assert(ws.push(w).skip(1) =~= ws.skip(1).push(w));
        lemma_join_push(ws.skip(1), w, sep);
        assert(ws.push(w)[0] == ws[0]);
        assert(spec_join(ws.push(w), sep) == ws[0] + sep + spec_join(ws.skip(1).push(w), sep));
        assert(ws[0] + sep + (spec_join(ws.skip(1), sep) + sep + w) =~= (ws[0] + sep + spec_join(
            ws.skip(1),
            sep,
        )) + sep + w);
    }
}

fn dashes_to_spaces(s: &str) -> (r: String)
    ensures
        r@ == s@.map_values(|c: char| dash_to_space(c)),
{
    let n = s.unicode_len();
    let mut out = String::new();
    let mut i: usize = 0;
    while i < n
        invariant
            0 <= i <= n,
            n == s@.len(),
            out@ == s@.take(i as int).map_values(|c: char| dash_to_space(c)),
        decreases n - i,
    {
        let c = s.get_char(i);
        if c == '-' {
            out.append(" ");
        } else {
            out.append(s.substring_char(i, i + 1));
            proof {
                assert(s@.subrange(i as int, i + 1) =~= seq![c]);
            }
        }
        proof {
            reveal_strlit(" ");
            assert(out@ =~= s@.take(i + 1).map_values(|c: char| dash_to_space(c)));
        }
        i += 1;
    }
    proof {
        assert(s@.take(n as int) =~= s@);
    }
    out
}

/// The table identifier derived from a domain's file name.
pub fn derive_table_ident(file_name: &str) -> (r: String)
    ensures
        r@ == spec_table_ident(file_name@),
{
    proof {
        reveal_strlit(".rs");
    }
    let cleaned = remove_all(file_name, ".rs");
    let spaced = dashes_to_spaces(cleaned.as_str());
    let words = split(spaced.as_str(), ' ');
    let ghost uw = spec_name_words(file_name@).map_values(|w: Seq<char>| spec_to_upper(w));
    proof {
        assert(strs_view(words@) == spec_name_words(file_name@));
    }
    let mut out = String::new();
    let mut i: usize = 0;
    while i < words.len()
        invariant
            0 <= i <= words.len(),
            uw == strs_view(words@).map_values(|w: Seq<char>| spec_to_upper(w)),
            uw.len() == words@.len(),
            out@ == spec_join(uw.take(i as int), "_"@),
        decreases words.len() - i,
    {
        if i > 0 {
            out.append("_");
        }
        let upper = to_upper_str(words[i].as_str());
        out.append(upper.as_str());
        proof {
            lemma_join_push(uw.take(i as int), uw[i as int], "_"@);
            assert(uw.take(i + 1) =~= uw.take(i as int).push(uw[i as int]));
            assert(uw[i as int] == spec_to_upper(strs_view(words@)[i as int]));
            assert(strs_view(words@)[i as int] == words@[i as int]@);
        }
        i += 1;
    }
    proof {
        assert(uw.take(words@.len() as int) =~= uw);
        assert(spec_table_ident(file_name@) == spec_join(uw, "_"@));
    }
    out
}

fn capitalize_word(w: &str) -> (r: String)
    ensures
        r@ == spec_capitalize(w@),
{
    let n = w.unicode_len();
    if n == 0 {
        let r = String::new();
        proof {
            assert(r@ =~= w@);
        }
        return r;
    }
    let c = w.get_char(0);
    let mut out: String;
    if 'a' <= c && c <= 'z' {
        let k = (c as u32 - 'a' as u32) as usize;
        let table = "ABCDEFGHIJKLMNOPQRSTUVWXYZ";
        proof {
            reveal_strlit("ABCDEFGHIJKLMNOPQRSTUVWXYZ");
        }
        out = String::from_str(table.substring_char(k, k + 1));
        proof {
            assert(table@.subrange(k as int, k + 1) =~= seq![upper_char(c)]);
        }
    } else {
        out = String::from_str(w.substring_char(0, 1));
        proof {
            assert(w@.subrange(0, 1) =~= seq![upper_char(c)]);
        }
    }
    out.append(w.substring_char(1, n));
    proof {
        assert(w@.subrange(1, n as int) =~= w@.skip(1));
        assert(out@ =~= spec_capitalize(w@));
    }
    out
}

/// The enumeration name expected in the domain's source text.
pub fn derive_enum_name(file_name: &str) -> (r: String)
    ensures
        r@ == spec_enum_name(file_name@),
{
    if contains_sub(file_name, "anchor") {
        proof {
            reveal_strlit("anchor");
        }
        return String::from_str("ErrorCode");
    }
    let ident = derive_table_ident(file_name);
    proof {
        reveal_strlit("anchor");
    }
    if str_eq(ident.as_str(), "CANDY_CORE_ERROR") {
        return String::from_str("CandyError");
    }
    proof {
        reveal_strlit(".rs");
    }
    let cleaned = remove_all(file_name, ".rs");
    let spaced = dashes_to_spaces(cleaned.as_str());
    let words = split(spaced.as_str(), ' ');
    let ghost cw = spec_name_words(file_name@).map_values(|w: Seq<char>| spec_capitalize(w));
    proof {
        assert(strs_view(words@) == spec_name_words(file_name@));
    }
    let mut out = String::new();
    let mut i: usize = 0;
    while i < words.len()
        invariant
            0 <= i <= words.len(),
            cw == strs_view(words@).map_values(|w: Seq<char>| spec_capitalize(w)),
            cw.len() == words@.len(),
            out@ == spec_join(cw.take(i as int), Seq::<char>::empty()),
        decreases words.len() - i,
    {
        let cap = capitalize_word(words[i].as_str());
        out.append(cap.as_str());
        proof {
            lemma_join_push(cw.take(i as int), cw[i as int], Seq::<char>::empty());
            assert(cw.take(i + 1) =~= cw.take(i as int).push(cw[i as int]));
            assert(cw[i as int] == spec_capitalize(strs_view(words@)[i as int]));
            assert(strs_view(words@)[i as int] == words@[i as int]@);
            if i > 0 {
                assert(spec_join(cw.take(i as int), Seq::<char>::empty()) + Seq::<char>::empty()
                    + cw[i as int] =~= spec_join(cw.take(i as int), Seq::<char>::empty()) + cw[
                    i as int
                ]);
            }
        }
        i += 1;
    }
    proof {
        assert(cw.take(words@.len() as int) =~= cw);
    }
    out
}

/// The starting code derived from the domain's file name and source text.
pub fn derive_start_code(file_name: &str, contents: &str) -> (r: u64)
    ensures
        r as nat == spec_start_code(file_name@, contents@),
{
    if contains_sub(file_name, "anchor") {
        100
    } else if contains_sub(contents, "#[msg") {
        6000
    } else {
        0
    }
}

/// One variant line before codes are assigned: the symbol, the explicit
/// override if the line carried one, and the pending attribute message.
pub struct VariantItem {
    pub symbol: Seq<char>,
    pub code_override: Option<u64>,
    pub message: Option<Seq<char>>,
}

/// A trimmed line that ends the enumeration body.
pub open spec fn is_terminator_line(l: Seq<char>) -> bool {
    l.len() > 0 && l[0] == '}'
}

/// A trimmed line that the scanner passes over: empty or a comment.
pub open spec fn is_skip_line(l: Seq<char>) -> bool {
    l.len() == 0 || l[0] == '/'
}

/// A trimmed line that opens an attribute.
pub open spec fn starts_attr(l: Seq<char>) -> bool {
    l.len() >= 2 && l[0] == '#' && l[1] == '['
}

/// A trimmed line that closes an attribute call.
pub open spec fn ends_attr(l: Seq<char>) -> bool {
    l.len() >= 2 && l[l.len() - 2] == ')' && l[l.len() - 1] == ']'
}

/// A trimmed line that begins or ends with a quote: the continuation of a
/// multi-line string, never a variant.
pub open spec fn is_quote_edged(l: Seq<char>) -> bool {
    l.len() > 0 && (l[0] == '"' || l[l.len() - 1] == '"')
}

/// A trimmed, non-empty line that declares one error variant.
pub open spec fn is_variant_line(l: Seq<char>) -> bool {
    !starts_attr(l) && !is_quote_edged(l) && !ends_attr(l)
}

/// A trimmed line that carries a message attribute.
pub open spec fn is_attribute_line(l: Seq<char>) -> bool {
    starts_attr(l) && ends_attr(l)
}

/// The human message of an attribute line: the attribute opener, the
/// `error("` or `msg("` call opener, and the closing `")]` are deleted.
pub open spec fn spec_attr_message(l: Seq<char>) -> Seq<char> {
    spec_remove_all(
        spec_remove_all(spec_remove_all(spec_remove_all(l, "#["@), "error(\""@), "msg(\""@),
        "\")]"@,
    )
}

/// A variant line split at its first comma: the symbol (and the explicit
/// override when the head carries `=`), or the structural error.
///
/// With an `=`, the symbol is the trimmed text left of the first `=`, and the
/// override is the trimmed text between the first `=` and the next `=` or the
/// comma, read as a decimal number.
pub open spec fn spec_variant(l: Seq<char>) -> Result<(Seq<char>, Option<u64>), ParseError> {
    match spec_find_char(l, ',') {
        None => Err(ParseError::MalformedEnum),
        Some(ci) => {
            let head = l.take(ci);
            match spec_find_char(head, '=') {
                None => Ok((head, None)),
                Some(ei) => {
                    let left = spec_trim(head.take(ei));
                    let after = head.skip(ei + 1);
                    let right = match spec_find_char(after, '=') {
                        None => after,
                        Some(e2) => after.take(e2),
                    };
                    match spec_parse_u64(spec_trim(right)) {
                        None => Err(ParseError::InvalidOverrideCode),
                        Some(v) => Ok((left, Some(v))),
                    }
                },
            }
        },
    }
}

/// The scanner: walks the body's lines from line `i` with one pending
/// attribute message, collecting variant items until a terminator line or the
/// end of the body.
///
/// A pending message that no variant consumes — because a later attribute
/// overwrites it or the body ends first — is silently discarded.
pub open spec fn spec_scan(
    lines: Seq<Seq<char>>,
    i: int,
    pending: Option<Seq<char>>,
) -> Result<Seq<VariantItem>, ParseError>
    decreases lines.len() - i,
{
    if i < 0 || i >= lines.len() {
        Ok(Seq::empty())
    } else {
        let l = spec_trim(lines[i]);
        if is_terminator_line(l) {
            Ok(Seq::empty())
        } else if is_skip_line(l) {
            spec_scan(lines, i + 1, pending)
        } else if is_variant_line(l) {
            match spec_variant(l) {
                Err(e) => Err(e),
                Ok(sv) => match spec_scan(lines, i + 1, None) {
                    Err(e) => Err(e),
                    Ok(rest) => Ok(
                        seq![
                            VariantItem {
                                symbol: sv.0,
                                code_override: sv.1,
                                message: pending,
                            },
                        ] + rest,
                    ),
                },
            }
        } else if is_attribute_line(l) {
            spec_scan(lines, i + 1, Some(spec_attr_message(l)))
        } else {
            spec_scan(lines, i + 1, pending)
        }
    }
}

/// The code assigner: the running counter starts at `start`, an explicit
/// override resets it for its own entry, and each emitted entry advances it
/// by one.
pub open spec fn spec_assign(start: nat, items: Seq<VariantItem>) -> Seq<EntryModel>
    decreases items.len(),
{
    if items.len() == 0 {
        Seq::empty()
    } else {
        let c = match items[0].code_override {
            Some(n) => n as nat,
            None => start,
        };
        seq![EntryModel { code: c, symbol: items[0].symbol, message: items[0].message }]
            + spec_assign(c + 1, items.skip(1))
    }
}

/// The counter value after all of `items` have been assigned from `start`.
pub open spec fn spec_next_code(start: nat, items: Seq<VariantItem>) -> nat
    decreases items.len(),
{
    if items.len() == 0 {
        start
    } else {
        let c = match items[0].code_override {
            Some(n) => n as nat,
            None => start,
        };
        spec_next_code(c + 1, items.skip(1))
    }
}

/// Assignment yields one entry per item.
pub proof fn lemma_assign_len(start: nat, items: Seq<VariantItem>)
    ensures
        spec_assign(start, items).len() == items.len(),
    decreases items.len(),
{
    if items.len() > 0 {
        let c = match items[0].code_override {
            Some(n) => n as nat,
            None => start,
        };
        lemma_assign_len(c + 1, items.skip(1));
    }
}

/// Assigning one more item appends one entry, whose code is the item's
/// override or the running counter, and advances the counter past it.
proof fn lemma_assign_push(start: nat, items: Seq<VariantItem>, x: VariantItem)
    ensures
        ({
            let c = match x.code_override {
                Some(n) => n as nat,
                None => spec_next_code(start, items),
            };
            spec_assign(start, items.push(x)) == spec_assign(start, items).push(
                EntryModel { code: c, symbol: x.symbol, message: x.message },
            ) && spec_next_code(start, items.push(x)) == c + 1
        }),
    decreases items.len(),
{
    let c = match x.code_override {
        Some(n) => n as nat,
        None => spec_next_code(start, items),
    };
    let e = EntryModel { code: c, symbol: x.symbol, message: x.message };
    if items.len() == 0 {
        assert(items.push(x)[0] == x);
        assert(items.push(x).skip(1) =~= Seq::<VariantItem>::empty());
        assert(spec_assign(start, items) == Seq::<EntryModel>::empty());
        assert(spec_next_code(start, items) == start);
        assert(spec_assign(c + 1, items.push(x).skip(1)) == Seq::<EntryModel>::empty());
        assert(spec_assign(start, items.push(x)) == seq![e] + Seq::<EntryModel>::empty());
        assert(seq![e] + Seq::<EntryModel>::empty() =~= spec_assign(start, items).push(e));
        assert(spec_next_code(c + 1, items.push(x).skip(1)) == c + 1);
    } else {
        let c0 = match items[0].code_override {
            Some(n) => n as nat,
            None => start,
        };
        assert(items.push(x)[0] == items[0]);
        assert(items.push(x).skip(1) =~= items.skip(1).push(x));
        assert(spec_next_code(start, items) == spec_next_code(c0 + 1, items.skip(1)));
        lemma_assign_push(c0 + 1, items.skip(1), x);
        let e0 = EntryModel { code: c0, symbol: items[0].symbol, message: items[0].message };
        assert(spec_assign(start, items.push(x)) == seq![e0] + spec_assign(
            c0 + 1,
            items.skip(1).push(x),
        ));
        assert(spec_assign(c0 + 1, items.skip(1).push(x)) == spec_assign(
            c0 + 1,
            items.skip(1),
        ).push(e));
        assert(spec_assign(start, items) == seq![e0] + spec_assign(c0 + 1, items.skip(1)));
        assert(seq![e0] + spec_assign(c0 + 1, items.skip(1)).push(e) =~= (seq![e0] + spec_assign(
            c0 + 1,
            items.skip(1),
        )).push(e));
        assert(spec_next_code(start, items.push(x)) == spec_next_code(
            c0 + 1,
            items.skip(1).push(x),
        ));
    }
}

/// Every entry whose item has no explicit override is numbered one past its
/// predecessor, in declaration order.
pub proof fn lemma_auto_increment(start: nat, items: Seq<VariantItem>, i: int)
    requires
        0 <= i,
        i + 1 < items.len(),
        items[i + 1].code_override is None,
    ensures
        spec_assign(start, items)[i + 1].code == spec_assign(start, items)[i].code + 1,
    decreases i,
{
    lemma_assign_len(start, items);
    let c0 = match items[0].code_override {
        Some(n) => n as nat,
        None => start,
    };
    let rest = items.skip(1);
    lemma_assign_len(c0 + 1, rest);
    if i == 0 {
        if items.len() >= 2 {
            assert(rest[0] == items[1]);
            assert(spec_assign(start, items)[1] == spec_assign(c0 + 1, rest)[0]);
            assert(spec_assign(c0 + 1, rest)[0].code == c0 + 1);
        }
    } else {
        assert(rest[i - 1 + 1] == items[i + 1]);
        assert(rest[i - 1] == items[i]);
        lemma_auto_increment(c0 + 1, rest, i - 1);
        assert(spec_assign(start, items)[i + 1] == spec_assign(c0 + 1, rest)[i]);
        assert(spec_assign(start, items)[i] == spec_assign(c0 + 1, rest)[i - 1]);
    }
}

/// An explicit override `SYMBOL = N` sets that entry's code to exactly `N`,
/// whatever the counter held before it.
pub proof fn lemma_override_resets(start: nat, items: Seq<VariantItem>, i: int, n: u64)
    requires
        0 <= i < items.len(),
        items[i].code_override == Some(n),
    ensures
        spec_assign(start, items)[i].code == n as nat,
    decreases i,
{
    lemma_assign_len(start, items);
    let c0 = match items[0].code_override {
        Some(n0) => n0 as nat,
        None => start,
    };
    let rest = items.skip(1);
    lemma_assign_len(c0 + 1, rest);
    if i == 0 {
    } else {
        assert(rest[i - 1] == items[i]);
        lemma_override_resets(c0 + 1, rest, i - 1, n);
        assert(spec_assign(start, items)[i] == spec_assign(c0 + 1, rest)[i - 1]);
    }
}

/// An explicit override `SYMBOL = N` drives the auto-increment that follows:
/// the next entry without its own override gets `N + 1`.
pub proof fn lemma_override_drives_next(start: nat, items: Seq<VariantItem>, i: int, n: u64)
    requires
        0 <= i,
        i + 1 < items.len(),
        items[i].code_override == Some(n),
        items[i + 1].code_override is None,
    ensures
        spec_assign(start, items)[i + 1].code == n as nat + 1,
{
    lemma_override_resets(start, items, i, n);
    lemma_auto_increment(start, items, i);
}

/// The view of a pending message.
pub open spec fn opt_view(o: Option<String>) -> Option<Seq<char>> {
    match o {
        Some(s) => Some(s@),
        None => None,
    }
}

/// Items already collected, prepended to a scan of the remaining lines.
pub open spec fn combine_scan(
    acc: Seq<VariantItem>,
    r: Result<Seq<VariantItem>, ParseError>,
) -> Result<Seq<VariantItem>, ParseError> {
    match r {
        Ok(s) => Ok(acc + s),
        Err(e) => Err(e),
    }
}

/// The parser's whole result over mathematical values: locate the expected
/// enumeration name, step two characters past it, trim, require a closing
/// brace, scan the lines, and assign codes from the derived starting code.
pub open spec fn spec_parse_entries(file_name: Seq<char>, contents: Seq<char>) -> Result<
    Seq<EntryModel>,
    ParseError,
> {
    let name = spec_enum_name(file_name);
    match spec_find_sub(contents, name) {
        None => Err(ParseError::EnumNotFound),
        Some(idx) => {
            if idx + name.len() + 2 > contents.len() {
                Err(ParseError::MalformedEnum)
            } else {
                let body = spec_trim(contents.skip(idx + name.len() + 2));
                if spec_find_char(body, '}') is None {
                    Err(ParseError::MalformedEnum)
                } else {
                    match spec_scan(spec_split(body, '\n'), 0, None) {
                        Err(e) => Err(e),
                        Ok(items) => Ok(
                            spec_assign(spec_start_code(file_name, contents), items),
                        ),
                    }
                }
            }
        },
    }
}

/// One variant line taken apart: the symbol and the optional override.
fn parse_variant_line(lt: &str) -> (r: Result<(String, Option<u64>), ParseError>)
    ensures
        ({
            let sv = spec_variant(lt@);
            match r {
                Ok(p) => sv is Ok && p.0@ == sv->Ok_0.0 && p.1 == sv->Ok_0.1,
                Err(e) => sv == Err::<(Seq<char>, Option<u64>), ParseError>(e),
            }
        }),
{
    let n = lt.unicode_len();
    let ci = match find_char(lt, ',') {
        None => {
            return Err(ParseError::MalformedEnum);
        },
        Some(c) => c,
    };
    proof {
        lemma_find_char_first(lt@, ',');
    }
    let head = lt.substring_char(0, ci);
    proof {
        assert(head@ =~= lt@.take(ci as int));
    }
    let hn = head.unicode_len();
    match find_char(head, '=') {
        None => Ok((String::from_str(head), None)),
        Some(ei) => {
            proof {
                lemma_find_char_first(head@, '=');
            }
            let left = trim(head.substring_char(0, ei));
            proof {
                assert(head@.subrange(0, ei as int) =~= head@.take(ei as int));
            }
            let after = head.substring_char(ei + 1, hn);
            proof {
                assert(after@ =~= head@.skip(ei + 1));
            }
            let right = match find_char(after, '=') {
                None => after,
                Some(e2) => {
                    proof {
                        lemma_find_char_first(after@, '=');
                    }
                    let r2 = after.substring_char(0, e2);
                    proof {
                        assert(r2@ =~= after@.take(e2 as int));
                    }
                    r2
                },
            };
            let rt = trim(right);
            match parse_u64(rt) {
                None => Err(ParseError::InvalidOverrideCode),
                Some(v) => Ok((String::from_str(left), Some(v))),
            }
        },
    }
}

/// Parses one domain's error enumeration out of its raw source text.
///
/// The entries come back in declaration order, numbered by the code
/// assigner's rules; the error says exactly why the source was rejected.
pub fn parse_error_entries(file_name: &str, contents: &str) -> (r: Result<
    Vec<ErrorEntry>,
    ParseError,
>)
    ensures
        ({
            let m = spec_parse_entries(file_name@, contents@);
            match r {
                Ok(v) => m is Ok && entries_view(v@) == m->Ok_0,
                Err(e) => m == Err::<Seq<EntryModel>, ParseError>(e),
            }
        }),
{
    let name = derive_enum_name(file_name);
    let n = contents.unicode_len();
    let idx = match find_sub(contents, name.as_str()) {
        None => {
            return Err(ParseError::EnumNotFound);
        },
        Some(i) => i,
    };
    proof {
        lemma_find_sub_first(contents@, name@);
        assert(match_at(contents@, name@, idx as int));
    }
    let nlen = name.unicode_len();
    if n - (idx + nlen) < 2 {
        return Err(ParseError::MalformedEnum);
    }
    let body = trim(contents.substring_char(idx + nlen + 2, n));
    proof {
        assert(contents@.subrange(idx + nlen + 2, n as int) =~= contents@.skip(idx + nlen + 2));
    }
    let ghost bodyv = spec_trim(contents@.skip(idx as int + nlen as int + 2));
    if find_char(body, '}').is_none() {
        return Err(ParseError::MalformedEnum);
    }
    let lines = split(body, '\n');
    let start = derive_start_code(file_name, contents);
    let ghost linesv = strs_view(lines@);
    let ghost startn = start as nat;
    let mut counter: u128 = start as u128;
    let mut pending: Option<String> = None;
    let mut entries: Vec<ErrorEntry> = Vec::new();
    let ghost mut items_acc = Seq::<VariantItem>::empty();
    let mut i: usize = 0;
    proof {
        match spec_scan(linesv, 0, None) {
            Ok(s) => {
                assert(Seq::<VariantItem>::empty() + s =~= s);
            },
            Err(_) => {},
        }
    }
    loop
        invariant
            0 <= i <= lines.len(),
            linesv == strs_view(lines@),
            linesv.len() == lines@.len(),
            startn == start as nat,
            startn <= 6000,
            n == contents@.len(),
            nlen == spec_enum_name(file_name@).len(),
            spec_find_sub(contents@, spec_enum_name(file_name@)) == Some(idx as int),
            idx + nlen + 2 <= n,
            bodyv == spec_trim(contents@.skip(idx + nlen + 2)),
            spec_find_char(bodyv, '}') is Some,
            linesv == spec_split(bodyv, '\n'),
            startn == spec_start_code(file_name@, contents@),
            combine_scan(items_acc, spec_scan(linesv, i as int, opt_view(pending))) == spec_scan(
                linesv,
                0,
                None,
            ),
            entries_view(entries@) == spec_assign(startn, items_acc),
            counter as nat == spec_next_code(startn, items_acc),
            counter as nat <= u64::MAX as nat + items_acc.len(),
            items_acc.len() <= i,
        ensures
            entries_view(entries@) == spec_assign(startn, items_acc),
            spec_scan(linesv, 0, None) == Ok::<Seq<VariantItem>, ParseError>(items_acc),
        decreases lines.len() - i,
    {
        if i == lines.len() {
            proof {
                assert(spec_scan(linesv, i as int, opt_view(pending)) == Ok::<
                    Seq<VariantItem>,
                    ParseError,
                >(Seq::empty()));
                assert(items_acc + Seq::<VariantItem>::empty() =~= items_acc);
            }
            break ;
        }
        let lt = trim(lines[i].as_str());
        let ghost l = spec_trim(linesv[i as int]);
        proof {
            assert(strs_view(lines@)[i as int] == lines@[i as int]@);
            assert(lt@ == l);
        }
        let ltn = lt.unicode_len();
        if ltn > 0 && lt.get_char(0) == '}' {
            proof {
                assert(is_terminator_line(l));
                assert(spec_scan(linesv, i as int, opt_view(pending)) == Ok::<
                    Seq<VariantItem>,
                    ParseError,
                >(Seq::empty()));
                assert(items_acc + Seq::<VariantItem>::empty() =~= items_acc);
            }
            break ;
        }
        if ltn == 0 || lt.get_char(0) == '/' {
            proof {
                assert(is_skip_line(l));
                assert(spec_scan(linesv, i as int, opt_view(pending)) == spec_scan(
                    linesv,
                    i + 1,
                    opt_view(pending),
                ));
            }
            i += 1;
            continue ;
        }
        let starts_a = ltn >= 2 && lt.get_char(0) == '#' && lt.get_char(1) == '[';
        let ends_a = ltn >= 2 && lt.get_char(ltn - 2) == ')' && lt.get_char(ltn - 1) == ']';
        let quote_e = lt.get_char(0) == '"' || lt.get_char(ltn - 1) == '"';
        proof {
            assert(starts_a == starts_attr(l));
            assert(ends_a == ends_attr(l));
            assert(quote_e == is_quote_edged(l));
        }
        if !starts_a && !quote_e && !ends_a {
            let ghost old_items = items_acc;
            let ghost pv = opt_view(pending);
            let (symbol, over) = match parse_variant_line(lt) {
                Err(e) => {
                    proof {
                        assert(spec_scan(linesv, i as int, pv) == Err::<
                            Seq<VariantItem>,
                            ParseError,
                        >(e));
                    }
                    return Err(e);
                },
                Ok(p) => p,
            };
            let code: u128 = match over {
                Some(v) => v as u128,
                None => counter,
            };
            let msg = pending;
            pending = None;
            let ghost x = VariantItem {
                symbol: symbol@,
                code_override: over,
                message: opt_view(msg),
            };
            entries.push(ErrorEntry { code, symbol, message: msg });
            proof {
                lemma_assign_push(startn, old_items, x);
                items_acc = old_items.push(x);
                assert(entries_view(entries@) =~= entries_view(entries@.drop_last()).push(
                    entries@.last()@,
                ));
                assert(entries@.last()@ == EntryModel {
                    code: code as nat,
                    symbol: x.symbol,
                    message: x.message,
                });
                match spec_scan(linesv, i + 1, None::<Seq<char>>) {
                    Ok(rest) => {
                        assert(spec_scan(linesv, i as int, pv) == Ok::<
                            Seq<VariantItem>,
                            ParseError,
                        >(seq![x] + rest));
                        assert(old_items + (seq![x] + rest) =~= items_acc + rest);
                    },
                    Err(e) => {
                        assert(spec_scan(linesv, i as int, pv) == Err::<
                            Seq<VariantItem>,
                            ParseError,
                        >(e));
                    },
                }
            }
            counter = code + 1;
            i += 1;
        } else if starts_a && ends_a {
            proof {
                reveal_strlit("#[");
                reveal_strlit("error(\"");
                reveal_strlit("msg(\"");
                reveal_strlit("\")]");
            }
            let m1 = remove_all(lt, "#[");
            let m2 = remove_all(m1.as_str(), "error(\"");
            let m3 = remove_all(m2.as_str(), "msg(\"");
            let m4 = remove_all(m3.as_str(), "\")]");
            proof {
                assert(is_attribute_line(l));
                assert(m4@ == spec_attr_message(l));
                assert(spec_scan(linesv, i as int, opt_view(pending)) == spec_scan(
                    linesv,
                    i + 1,
                    Some(m4@),
                ));
            }
            pending = Some(m4);
            i += 1;
        } else {
            proof {
                assert(!is_terminator_line(l) && !is_skip_line(l) && !is_variant_line(l)
                    && !is_attribute_line(l));
                assert(spec_scan(linesv, i as int, opt_view(pending)) == spec_scan(
                    linesv,
                    i + 1,
                    opt_view(pending),
                ));
            }
            i += 1;
        }
    }
    Ok(entries)
}

} // verus!
