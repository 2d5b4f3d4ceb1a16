//! The registry compiler: renders one domain's parsed entries into the
//! serialized static-mapping artifact, one `"<HEX>" => "<SYMBOL>[: MESSAGE]",`
//! line per entry between a fixed header and footer. The lookup key is the
//! upper-case hexadecimal form of the entry's code, with no leading zeros.

use crate::parse::{
    entries_view, spec_parse_entries, spec_table_ident, derive_table_ident, parse_error_entries,
    EntryModel, ErrorEntry, ParseError,
};
use vstd::prelude::*;

verus! {

/// The hexadecimal digit for a value below sixteen.
pub open spec fn spec_hex_digit(d: nat) -> char
    recommends
        d < 16,
{
    "0123456789ABCDEF"@[d as int]
}

/// The upper-case hexadecimal rendering of `n`, with no leading zeros and no
/// prefix; zero renders as `0`.
pub open spec fn spec_hex(n: nat) -> Seq<char>
    decreases n,
{
    if n < 16 {
        seq![spec_hex_digit(n)]
    } else {
        spec_hex(n / 16).push(spec_hex_digit(n % 16))
    }
}

fn hex_digit_str(d: usize) -> (r: &'static str)
    requires
        d < 16,
    ensures
        r@ == seq![spec_hex_digit(d as nat)],
{
    let table = "0123456789ABCDEF";
    proof {
        reveal_strlit("0123456789ABCDEF");
    }
    let r = table.substring_char(d, d + 1);
    proof {
        assert(table@.subrange(d as int, d + 1) =~= seq![spec_hex_digit(d as nat)]);
    }
    r
}

/// The upper-case hexadecimal form of a code.
pub fn hex_upper(n: u128) -> (r: String)
    ensures
        r@ == spec_hex(n as nat),
    decreases n,
{
    let d = (n % 16) as usize;
    if n < 16 {
        String::from_str(hex_digit_str(d))
    } else {
        proof {
            assert(n / 16 < n) by (nonlinear_arith)
                requires
                    n >= 16,
            ;
        }
        let mut r = hex_upper(n / 16);
        r.append(hex_digit_str(d));
        proof {
            assert(spec_hex((n / 16) as nat) + seq![spec_hex_digit((n % 16) as nat)] =~= spec_hex(
                (n / 16) as nat,
            ).push(spec_hex_digit((n % 16) as nat)));
        }
        r
    }
}

/// The declaration line that opens a domain's rendered mapping.
pub open spec fn spec_header(var_name: Seq<char>) -> Seq<char> {
    "pub static "@ + var_name + ": phf::Map<&'static str, &'static str> = phf_map! {\n"@
}

/// The line that closes a domain's rendered mapping.
pub open spec fn spec_footer() -> Seq<char> {
    "};\n\n"@
}

/// One rendered entry line: the code in upper-case hexadecimal as the key,
/// and the symbol — followed by `: ` and the message when one is present —
/// as the value.
pub open spec fn spec_render_entry(e: EntryModel) -> Seq<char> {
    "    \""@ + spec_hex(e.code) + "\" => \""@ + e.symbol + (match e.message {
        Some(m) => ": "@ + m,
        None => Seq::empty(),
    }) + "\",\n"@
}

/// All entry lines, in order.
pub open spec fn spec_render_entries(es: Seq<EntryModel>) -> Seq<char>
    decreases es.len(),
{
    if es.len() == 0 {
        Seq::empty()
    } else {
        spec_render_entry(es[0]) + spec_render_entries(es.skip(1))
    }
}

/// The whole artifact: header, entry lines, footer.
pub open spec fn spec_render(var_name: Seq<char>, es: Seq<EntryModel>) -> Seq<char> {
    spec_header(var_name) + spec_render_entries(es) + spec_footer()
}

proof fn lemma_render_entries_push(es: Seq<EntryModel>, e: EntryModel)
    ensures
        spec_render_entries(es.push(e)) == spec_render_entries(es) + spec_render_entry(e),
    decreases es.len(),
{
    if es.len() == 0 {
        assert(es.push(e)[0] == e);
        assert(es.push(e).skip(1) =~= Seq::<EntryModel>::empty());
        assert(spec_render_entries(es.push(e)) == spec_render_entry(e) + spec_render_entries(
            Seq::<EntryModel>::empty(),
        ));
        assert(spec_render_entries(Seq::<EntryModel>::empty()) == Seq::<char>::empty());
        assert(spec_render_entry(e) + Seq::<char>::empty() =~= spec_render_entry(e));
        assert(Seq::<char>::empty() + spec_render_entry(e) =~= spec_render_entry(e));
    } else {
        assert(es.push(e)[0] == es[0]);
        assert(es.push(e).skip(1) =~= es.skip(1).push(e));
        lemma_render_entries_push(es.skip(1), e);
        assert(spec_render_entries(es.push(e)) == spec_render_entry(es[0]) + spec_render_entries(
            es.skip(1).push(e),
        ));
        assert(spec_render_entries(es) == spec_render_entry(es[0]) + spec_render_entries(
            es.skip(1),
        ));
        assert(spec_render_entry(es[0]) + (spec_render_entries(es.skip(1)) + spec_render_entry(e))
            =~= (spec_render_entry(es[0]) + spec_render_entries(es.skip(1))) + spec_render_entry(
            e,
        ));
    }
}

/// The header that declares a domain's immutable mapping under `var_name`.
pub fn generate_phf_map_var(var_name: &str) -> (r: String)
    ensures
        r@ == spec_header(var_name@),
{
    let mut out = String::from_str("pub static ");
    out.append(var_name);
    out.append(": phf::Map<&'static str, &'static str> = phf_map! {\n");
    proof {
        assert(out@ =~= spec_header(var_name@));
    }
    out
}

/// Renders parsed entries into the serialized mapping artifact. Identical
/// input yields byte-identical output: the result is a function of the
/// arguments alone.
pub fn render_error_table(var_name: &str, entries: &Vec<ErrorEntry>) -> (r: String)
    ensures
        r@ == spec_render(var_name@, entries_view(entries@)),
{
    let ghost esv = entries_view(entries@);
    let mut out = generate_phf_map_var(var_name);
    let mut i: usize = 0;
    proof {
        assert(out@ + Seq::<char>::empty() =~= out@);
    }
    while i < entries.len()
        invariant
            0 <= i <= entries.len(),
            esv == entries_view(entries@),
            esv.len() == entries@.len(),
            out@ == spec_header(var_name@) + spec_render_entries(esv.take(i as int)),
        decreases entries.len() - i,
    {
        let e = &entries[i];
        out.append("    \"");
        let hex = hex_upper(e.code);
        out.append(hex.as_str());
        out.append("\" => \"");
        out.append(e.symbol.as_str());
        match &e.message {
            Some(m) => {
                out.append(": ");
                out.append(m.as_str());
            },
            None => {},
        }
        out.append("\",\n");
        proof {
            assert(esv[i as int] == entries@[i as int]@);
            lemma_render_entries_push(esv.take(i as int), esv[i as int]);
            assert(esv.take(i + 1) =~= esv.take(i as int).push(esv[i as int]));
            assert(out@ =~= spec_header(var_name@) + spec_render_entries(esv.take(i + 1)));
        }
        i += 1;
    }
    out.append("};\n\n");
    proof {
        assert(esv.take(esv.len() as int) =~= esv);
        assert(out@ =~= spec_render(var_name@, esv));
    }
    out
}

/// The compiler's whole result over mathematical values: the parsed entries
/// rendered under the table identifier derived from the file name, or the
/// parser's error.
pub open spec fn spec_convert(file_name: Seq<char>, contents: Seq<char>) -> Result<
    Seq<char>,
    ParseError,
> {
    match spec_parse_entries(file_name, contents) {
        Err(e) => Err(e),
        Ok(es) => Ok(spec_render(spec_table_ident(file_name), es)),
    }
}

/// Compiles one domain's raw error-enumeration source into the serialized
/// mapping artifact, or reports exactly why the source was rejected.
pub fn convert_to_wtf_error(file_name: &str, file_contents: &str) -> (r: Result<
    String,
    ParseError,
>)
    ensures
        ({
            let m = spec_convert(file_name@, file_contents@);
            match r {
                Ok(s) => m is Ok && s@ == m->Ok_0,
                Err(e) => m == Err::<Seq<char>, ParseError>(e),
            }
        }),
{
    match parse_error_entries(file_name, file_contents) {
        Err(e) => Err(e),
        Ok(entries) => {
            let ident = derive_table_ident(file_name);
            Ok(render_error_table(ident.as_str(), &entries))
        },
    }
}

/// The compiler is deterministic: two results obtained from the same file
/// name and source text are identical, byte for byte.
pub proof fn lemma_convert_deterministic(
    file_name: Seq<char>,
    contents: Seq<char>,
    r1: Result<Seq<char>, ParseError>,
    r2: Result<Seq<char>, ParseError>,
)
    requires
        r1 == spec_convert(file_name, contents),
        r2 == spec_convert(file_name, contents),
    ensures
        r1 == r2,
{
}

} // verus!
