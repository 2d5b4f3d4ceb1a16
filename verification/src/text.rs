//! Character and string helpers shared by the parser, the renderer and the
//! lookup tables: whitespace trimming, substring search, splitting, ASCII
//! upper-casing and decimal parsing, each with an exact specification over
//! sequences of characters.

use vstd::prelude::*;

verus! {

/// The whitespace characters that trimming removes.
pub open spec fn is_wspace(c: char) -> bool {
    c == ' ' || c == '\t' || c == '\n' || c == '\r' || c == '\u{000B}' || c == '\u{000C}'
}

fn wspace_char(c: char) -> (b: bool)
    ensures
        b == is_wspace(c),
{
    c == ' ' || c == '\t' || c == '\n' || c == '\r' || c == '\u{000B}' || c == '\u{000C}'
}

/// The ASCII upper-case counterpart of a character; characters outside
/// `'a'..='z'` are unchanged.
pub open spec fn upper_char(c: char) -> char {
    if 'a' <= c && c <= 'z' {
        "ABCDEFGHIJKLMNOPQRSTUVWXYZ"@[c as int - 'a' as int]
    } else {
        c
    }
}

/// A string mapped character by character through `upper_char`.
pub open spec fn spec_to_upper(s: Seq<char>) -> Seq<char> {
    s.map_values(|c: char| upper_char(c))
}

/// The index of the first occurrence of `c` in `s`, if any.
pub open spec fn spec_find_char(s: Seq<char>, c: char) -> Option<int>
    decreases s.len(),
{
    if s.len() == 0 {
        None
    } else if s[0] == c {
        Some(0)
    } else {
        match spec_find_char(s.skip(1), c) {
            Some(i) => Some(i + 1),
            None => None,
        }
    }
}

/// `spec_find_char` returns the first occurrence: a hit is in bounds, holds
/// `c`, and nothing before it does; a miss means `c` is absent.
pub proof fn lemma_find_char_first(s: Seq<char>, c: char)
    ensures
        match spec_find_char(s, c) {
            Some(i) => 0 <= i < s.len() && s[i] == c && (forall|j: int| 0 <= j < i ==> s[j] != c),
            None => forall|j: int| 0 <= j < s.len() ==> s[j] != c,
        },
    decreases s.len(),
{
    if s.len() > 0 && s[0] != c {
        lemma_find_char_first(s.skip(1), c);
        assert(forall|j: int| 0 <= j < s.skip(1).len() ==> s.skip(1)[j] == s[j + 1]);
        match spec_find_char(s.skip(1), c) {
            Some(i) => {
                assert(s[i + 1] == s.skip(1)[i]);
                assert forall|j: int| 0 <= j < i + 1 implies s[j] != c by {
                    if j > 0 {
                        assert(s.skip(1)[j - 1] != c);
                    }
                }
            },
            None => {
                assert forall|j: int| 0 <= j < s.len() implies s[j] != c by {
                    if j > 0 {
                        assert(s.skip(1)[j - 1] != c);
                    }
                }
            },
        }
    }
}

pub fn find_char(s: &str, c: char) -> (r: Option<usize>)
    ensures
        match r {
            Some(i) => spec_find_char(s@, c) == Some(i as int),
            None => spec_find_char(s@, c) is None,
        },
{
    let n = s.unicode_len();
    let mut i: usize = 0;
    while i < n
        invariant
            0 <= i <= n,
            n == s@.len(),
            forall|j: int| 0 <= j < i ==> s@[j] != c,
        decreases n - i,
    {
        if s.get_char(i) == c {
            proof {
                lemma_find_char_first(s@, c);
                if spec_find_char(s@, c) is None {
                    assert(false);
                }
                let k = spec_find_char(s@, c)->Some_0;
                assert(k == i as int);
            }
            return Some(i);
        }
        i += 1;
    }
    proof {
        lemma_find_char_first(s@, c);
        if spec_find_char(s@, c) is Some {
            let k = spec_find_char(s@, c)->Some_0;
            assert(s@[k] == c);
            assert(false);
        }
    }
    None
}

/// Whether `p` occurs in `s` starting at position `i`.
pub open spec fn match_at(s: Seq<char>, p: Seq<char>, i: int) -> bool {
    0 <= i && i + p.len() <= s.len() && s.subrange(i, i + p.len()) == p
}

/// The index of the first occurrence of `p` as a contiguous part of `s`.
pub open spec fn spec_find_sub(s: Seq<char>, p: Seq<char>) -> Option<int>
    decreases s.len(),
{
    if p.len() > s.len() {
        None
    } else if s.take(p.len() as int) == p {
        Some(0)
    } else if s.len() == 0 {
        None
    } else {
        match spec_find_sub(s.skip(1), p) {
            Some(i) => Some(i + 1),
            None => None,
        }
    }
}

proof fn lemma_match_at_skip(s: Seq<char>, p: Seq<char>, i: int)
    requires
        s.len() > 0,
        0 <= i,
    ensures
        match_at(s.skip(1), p, i) == match_at(s, p, i + 1),
{
    if i + 1 + p.len() <= s.len() {
        assert(s.skip(1).subrange(i, i + p.len()) =~= s.subrange(i + 1, i + 1 + p.len()));
    }
}

/// `spec_find_sub` returns the first match: a hit matches and nothing before
/// it does; a miss means no position matches.
pub proof fn lemma_find_sub_first(s: Seq<char>, p: Seq<char>)
    ensures
        match spec_find_sub(s, p) {
            Some(i) => match_at(s, p, i) && (forall|j: int| 0 <= j < i ==> !match_at(s, p, j)),
            None => forall|j: int| !match_at(s, p, j),
        },
    decreases s.len(),
{
    if p.len() > s.len() {
        assert(forall|j: int| !match_at(s, p, j));
    } else if s.take(p.len() as int) == p {
        assert(s.subrange(0, p.len() as int) =~= s.take(p.len() as int));
    } else {
        assert(s.subrange(0, p.len() as int) =~= s.take(p.len() as int));
        assert(!match_at(s, p, 0));
        if s.len() == 0 {
            assert(forall|j: int| !match_at(s, p, j));
        } else {
            lemma_find_sub_first(s.skip(1), p);
            assert(forall|j: int| 0 <= j ==> match_at(s.skip(1), p, j) == match_at(s, p, j + 1))
                by {
                assert forall|j: int| 0 <= j implies match_at(s.skip(1), p, j) == match_at(
                    s,
                    p,
                    j + 1,
                ) by {
                    lemma_match_at_skip(s, p, j);
                }
            }
            match spec_find_sub(s.skip(1), p) {
                Some(i) => {
                    assert(match_at(s, p, i + 1));
                    assert forall|j: int| 0 <= j < i + 1 implies !match_at(s, p, j) by {
                        if j > 0 {
                            assert(!match_at(s.skip(1), p, j - 1));
                        }
                    }
                },
                None => {
                    assert forall|j: int| !match_at(s, p, j) by {
                        if j > 0 {
                            assert(!match_at(s.skip(1), p, j - 1));
                        }
                    }
                },
            }
        }
    }
}

/// Whether `p@` occurs in `s@` starting at character position `pos`.
fn matches_at(s: &str, p: &str, pos: usize) -> (r: bool)
    requires
        pos + p@.len() <= s@.len(),
    ensures
        r == match_at(s@, p@, pos as int),
{
    let n = s.unicode_len();
    let m = p.unicode_len();
    let mut k: usize = 0;
    while k < m
        invariant
            0 <= k <= m,
            m == p@.len(),
            n == s@.len(),
            pos + m <= n,
            forall|j: int| 0 <= j < k ==> s@[pos + j] == p@[j],
        decreases m - k,
    {
        if s.get_char(pos + k) != p.get_char(k) {
            proof {
                assert(s@.subrange(pos as int, pos + p@.len())[k as int] != p@[k as int]);
            }
            return false;
        }
        k += 1;
    }
    proof {
        assert(s@.subrange(pos as int, pos + p@.len()) =~= p@);
    }
    true
}

pub fn find_sub(s: &str, p: &str) -> (r: Option<usize>)
    ensures
        match r {
            Some(i) => spec_find_sub(s@, p@) == Some(i as int),
            None => spec_find_sub(s@, p@) is None,
        },
{
    let n = s.unicode_len();
    let m = p.unicode_len();
    if m > n {
        proof {
            lemma_find_sub_first(s@, p@);
            if spec_find_sub(s@, p@) is Some {
                let k = spec_find_sub(s@, p@)->Some_0;
                assert(match_at(s@, p@, k));
            }
        }
        return None;
    }
    if m == 0 {
        proof {
            assert(s@.take(0) =~= p@);
        }
        return Some(0);
    }
    let mut i: usize = 0;
    while i < n - m + 1
        invariant
            0 <= i <= n - m + 1,
            1 <= m <= n,
            n == s@.len(),
            m == p@.len(),
            forall|j: int| 0 <= j < i ==> !match_at(s@, p@, j),
        decreases n - m + 1 - i,
    {
        if matches_at(s, p, i) {
            proof {
                lemma_find_sub_first(s@, p@);
                if spec_find_sub(s@, p@) is None {
                    assert(false);
                }
                let k = spec_find_sub(s@, p@)->Some_0;
                assert(k == i as int);
            }
            return Some(i);
        }
        i += 1;
    }
    proof {
        lemma_find_sub_first(s@, p@);
        if spec_find_sub(s@, p@) is Some {
            let k = spec_find_sub(s@, p@)->Some_0;
            assert(match_at(s@, p@, k));
            assert(k <= n - m);
            assert(false);
        }
    }
    None
}

/// Whether `p@` occurs anywhere in `s@`.
pub open spec fn spec_contains(s: Seq<char>, p: Seq<char>) -> bool {
    spec_find_sub(s, p) is Some
}

pub fn contains_sub(s: &str, p: &str) -> (r: bool)
    ensures
        r == spec_contains(s@, p@),
{
    find_sub(s, p).is_some()
}

/// `s` with its leading whitespace removed.
pub open spec fn spec_trim_start(s: Seq<char>) -> Seq<char>
    decreases s.len(),
{
    if s.len() > 0 && is_wspace(s[0]) {
        spec_trim_start(s.skip(1))
    } else {
        s
    }
}

/// `s` with its trailing whitespace removed.
pub open spec fn spec_trim_end(s: Seq<char>) -> Seq<char>
    decreases s.len(),
{
    if s.len() > 0 && is_wspace(s.last()) {
        spec_trim_end(s.take(s.len() - 1))
    } else {
        s
    }
}

/// `s` with whitespace removed from both ends.
pub open spec fn spec_trim(s: Seq<char>) -> Seq<char> {
    spec_trim_end(spec_trim_start(s))
}

proof fn lemma_trim_start_at(s: Seq<char>, a: int)
    requires
        0 <= a <= s.len(),
        forall|j: int| 0 <= j < a ==> is_wspace(s[j]),
        a == s.len() || !is_wspace(s[a]),
    ensures
        spec_trim_start(s) == s.skip(a),
    decreases a,
{
    if a == 0 {
        assert(s.skip(0) =~= s);
    } else {
        assert(is_wspace(s[0]));
        assert(forall|j: int| 0 <= j < s.skip(1).len() ==> s.skip(1)[j] == s[j + 1]);
        lemma_trim_start_at(s.skip(1), a - 1);
        assert(s.skip(1).skip(a - 1) =~= s.skip(a));
    }
}

proof fn lemma_trim_end_at(s: Seq<char>, b: int)
    requires
        0 <= b <= s.len(),
        forall|j: int| b <= j < s.len() ==> is_wspace(s[j]),
        b == 0 || !is_wspace(s[b - 1]),
    ensures
        spec_trim_end(s) == s.take(b),
    decreases s.len() - b,
{
    if b == s.len() {
        assert(s.take(b) =~= s);
        if s.len() > 0 {
            assert(!is_wspace(s.last()));
        }
    } else {
        assert(is_wspace(s.last()));
        let t = s.take(s.len() - 1);
        assert(forall|j: int| 0 <= j < t.len() ==> t[j] == s[j]);
        lemma_trim_end_at(t, b);
        assert(t.take(b) =~= s.take(b));
    }
}

pub fn trim(s: &str) -> (r: &str)
    ensures
        r@ == spec_trim(s@),
{
    let n = s.unicode_len();
    let mut a: usize = 0;
    while a < n && wspace_char(s.get_char(a))
        invariant
            0 <= a <= n,
            n == s@.len(),
            forall|j: int| 0 <= j < a ==> is_wspace(s@[j]),
        decreases n - a,
    {
        a += 1;
    }
    let mut b: usize = n;
    while b > a && wspace_char(s.get_char(b - 1))
        invariant
            a <= b <= n,
            n == s@.len(),
            forall|j: int| b <= j < n ==> is_wspace(s@[j]),
        decreases b,
    {
        b -= 1;
    }
    proof {
        lemma_trim_start_at(s@, a as int);
        let t = s@.skip(a as int);
        assert(forall|j: int| 0 <= j < t.len() ==> t[j] == s@[j + a]);
        lemma_trim_end_at(t, b - a);
        assert(t.take(b - a) =~= s@.subrange(a as int, b as int));
    }
    s.substring_char(a, b)
}

/// The pieces of `s` between occurrences of the separator `sep`; the
/// separator itself appears in no piece, and splitting a string with no
/// separator yields that one string.
pub open spec fn spec_split(s: Seq<char>, sep: char) -> Seq<Seq<char>>
    decreases s.len(),
    via spec_split_decreases
{
    match spec_find_char(s, sep) {
        None => seq![s],
        Some(i) => seq![s.take(i)] + spec_split(s.skip(i + 1), sep),
    }
}

#[via_fn]
proof fn spec_split_decreases(s: Seq<char>, sep: char) {
    lemma_find_char_first(s, sep);
}

pub fn split(s: &str, sep: char) -> (r: Vec<String>)
    ensures
        strs_view(r@) == spec_split(s@, sep),
{
    let n = s.unicode_len();
    let mut out: Vec<String> = Vec::new();
    let mut pos: usize = 0;
    proof {
        assert(s@.skip(0) =~= s@);
        assert(strs_view(out@) + spec_split(s@, sep) =~= spec_split(s@, sep));
    }
    loop
        invariant
            0 <= pos <= n,
            n == s@.len(),
            spec_split(s@, sep) == strs_view(out@) + spec_split(s@.skip(pos as int), sep),
        decreases n - pos,
    {
        let ghost tail = s@.skip(pos as int);
        let rest = s.substring_char(pos, n);
        proof {
            assert(rest@ =~= tail);
        }
        match find_char(rest, sep) {
            None => {
                let piece = String::from_str(rest);
                out.push(piece);
                proof {
                    assert(spec_split(tail, sep) == seq![tail]);
                    assert(strs_view(out@) =~= strs_view(out@.drop_last()) + seq![tail]);
                    assert(strs_view(out@) =~= spec_split(s@, sep));
                }
                return out;
            },
            Some(i) => {
                proof {
                    lemma_find_char_first(tail, sep);
                }
                let piece = String::from_str(rest.substring_char(0, i));
                out.push(piece);
                proof {
                    let old_view = strs_view(out@.drop_last());
                    assert(tail.take(i as int) =~= rest@.subrange(0, i as int));
                    assert(spec_split(tail, sep) == seq![tail.take(i as int)] + spec_split(
                        tail.skip(i + 1),
                        sep,
                    ));
                    assert(strs_view(out@) =~= old_view + seq![tail.take(i as int)]);
                    assert(tail.skip(i + 1) =~= s@.skip(pos + i + 1));
                    assert(strs_view(out@) + spec_split(s@.skip(pos + i + 1), sep) =~= old_view
                        + spec_split(tail, sep));
                }
                pos = pos + i + 1;
            },
        }
    }
}

/// The views of a sequence of strings.
pub open spec fn strs_view(ss: Seq<String>) -> Seq<Seq<char>> {
    ss.map_values(|x: String| x@)
}

/// `s` with every occurrence of the pattern `p` deleted, scanning left to
/// right without overlap.
pub open spec fn spec_remove_all(s: Seq<char>, p: Seq<char>) -> Seq<char>
    decreases s.len(),
{
    if p.len() == 0 {
        s
    } else if s.len() < p.len() {
        s
    } else if s.take(p.len() as int) == p {
        spec_remove_all(s.skip(p.len() as int), p)
    } else {
        seq![s[0]] + spec_remove_all(s.skip(1), p)
    }
}

pub fn remove_all(s: &str, p: &str) -> (r: String)
    requires
        p@.len() > 0,
    ensures
        r@ == spec_remove_all(s@, p@),
{
    let n = s.unicode_len();
    let m = p.unicode_len();
    let mut out = String::new();
    let mut pos: usize = 0;
    proof {
        assert(s@.skip(0) =~= s@);
        assert(out@ + spec_remove_all(s@, p@) =~= spec_remove_all(s@, p@));
    }
    while pos < n
        invariant
            0 <= pos <= n,
            n == s@.len(),
            m == p@.len(),
            m > 0,
            spec_remove_all(s@, p@) == out@ + spec_remove_all(s@.skip(pos as int), p@),
        decreases n - pos,
    {
        let ghost tail = s@.skip(pos as int);
        if m <= n - pos && matches_at(s, p, pos) {
            proof {
                assert(tail.take(m as int) =~= s@.subrange(pos as int, pos + m));
                assert(tail.skip(m as int) =~= s@.skip(pos + m));
            }
            pos += m;
        } else {
            proof {
                if pos + m <= n {
                    assert(tail.take(m as int) =~= s@.subrange(pos as int, pos + m));
                }
                assert(tail.len() > 0);
                assert(spec_remove_all(tail, p@) == seq![tail[0]] + spec_remove_all(
                    tail.skip(1),
                    p@,
                ));
            }
            out.append(s.substring_char(pos, pos + 1));
            proof {
                assert(s@.subrange(pos as int, pos + 1) =~= seq![tail[0]]);
                assert(tail.skip(1) =~= s@.skip(pos + 1));
            }
            pos += 1;
        }
    }
    proof {
        assert(s@.skip(n as int) =~= Seq::<char>::empty());
        assert(out@ + Seq::<char>::empty() =~= out@);
    }
    out
}

/// Character-wise equality of two strings.
pub fn str_eq(a: &str, b: &str) -> (r: bool)
    ensures
        r == (a@ == b@),
{
    let n = a.unicode_len();
    if n != b.unicode_len() {
        return false;
    }
    let mut i: usize = 0;
    while i < n
        invariant
            0 <= i <= n,
            n == a@.len() == b@.len(),
            forall|j: int| 0 <= j < i ==> a@[j] == b@[j],
        decreases n - i,
    {
        if a.get_char(i) != b.get_char(i) {
            return false;
        }
        i += 1;
    }
    proof {
        assert(a@ =~= b@);
    }
    true
}

pub fn to_upper_str(s: &str) -> (r: String)
    ensures
        r@ == spec_to_upper(s@),
{
    let n = s.unicode_len();
    let mut out = String::new();
    let mut i: usize = 0;
    while i < n
        invariant
            0 <= i <= n,
            n == s@.len(),
            out@ == spec_to_upper(s@.take(i as int)),
        decreases n - i,
    {
        let c = s.get_char(i);
        if 'a' <= c && c <= 'z' {
            let k = (c as u32 - 'a' as u32) as usize;
            let table = "ABCDEFGHIJKLMNOPQRSTUVWXYZ";
            proof {
                reveal_strlit("ABCDEFGHIJKLMNOPQRSTUVWXYZ");
            }
            out.append(table.substring_char(k, k + 1));
            proof {
                assert(table@.subrange(k as int, k + 1) =~= seq![upper_char(c)]);
            }
        } else {
            out.append(s.substring_char(i, i + 1));
            proof {
                assert(s@.subrange(i as int, i + 1) =~= seq![upper_char(c)]);
            }
        }
        proof {
            assert(out@ =~= spec_to_upper(s@.take(i + 1)));
        }
        i += 1;
    }
    proof {
        assert(s@.take(n as int) =~= s@);
    }
    out
}

/// Upper-casing is idempotent: a second pass changes nothing.
pub proof fn lemma_upper_char_idempotent(c: char)
    ensures
        upper_char(upper_char(c)) == upper_char(c),
{
    reveal_strlit("ABCDEFGHIJKLMNOPQRSTUVWXYZ");
    if 'a' <= c && c <= 'z' {
        let k = c as int - 'a' as int;
        assert('A' <= "ABCDEFGHIJKLMNOPQRSTUVWXYZ"@[k] <= 'Z');
    }
}

/// Upper-casing a whole string is idempotent.
pub proof fn lemma_to_upper_idempotent(s: Seq<char>)
    ensures
        spec_to_upper(spec_to_upper(s)) == spec_to_upper(s),
{
    assert forall|i: int| 0 <= i < s.len() implies upper_char(upper_char(s[i])) == upper_char(
        s[i],
    ) by {
        lemma_upper_char_idempotent(s[i]);
    }
    assert(spec_to_upper(spec_to_upper(s)) =~= spec_to_upper(s));
}

/// Whether `c` is a decimal digit.
pub open spec fn is_digit(c: char) -> bool {
    '0' <= c && c <= '9'
}

/// The numeric value of a decimal digit.
pub open spec fn digit_val(c: char) -> nat
    recommends
        is_digit(c),
{
    (c as int - '0' as int) as nat
}

/// Whether every character of `s` is a decimal digit.
pub open spec fn all_digits(s: Seq<char>) -> bool {
    forall|i: int| 0 <= i < s.len() ==> is_digit(#[trigger] s[i])
}

/// The number that a string of decimal digits denotes.
pub open spec fn dec_val(s: Seq<char>) -> nat
    decreases s.len(),
{
    if s.len() == 0 {
        0
    } else {
        dec_val(s.drop_last()) * 10 + digit_val(s.last())
    }
}

/// The value a non-empty, all-digit string denotes, when it fits in a `u64`;
/// `None` for the empty string, for any non-digit character, and for a value
/// beyond `u64::MAX`.
pub open spec fn spec_parse_u64(s: Seq<char>) -> Option<u64> {
    if s.len() > 0 && all_digits(s) && dec_val(s) <= u64::MAX {
        Some(dec_val(s) as u64)
    } else {
        None
    }
}

/// A digit string denotes at least what any of its prefixes denotes.
proof fn lemma_dec_val_prefix(s: Seq<char>, j: int)
    requires
        0 <= j <= s.len(),
    ensures
        dec_val(s.take(j)) <= dec_val(s),
    decreases s.len() - j,
{
    if j < s.len() {
        lemma_dec_val_prefix(s, j + 1);
        assert(s.take(j + 1).drop_last() =~= s.take(j));
        assert(s.take(j + 1).last() == s[j]);
        assert(dec_val(s.take(j + 1)) == dec_val(s.take(j)) * 10 + digit_val(s[j]));
        assert(dec_val(s.take(j)) * 10 >= dec_val(s.take(j))) by (nonlinear_arith);
    } else {
        assert(s.take(j) =~= s);
    }
}

pub fn parse_u64(s: &str) -> (r: Option<u64>)
    ensures
        r == spec_parse_u64(s@),
{
    let n = s.unicode_len();
    if n == 0 {
        return None;
    }
    let mut val: u64 = 0;
    let mut i: usize = 0;
    while i < n
        invariant
            0 <= i <= n,
            n == s@.len(),
            n > 0,
            all_digits(s@.take(i as int)),
            val == dec_val(s@.take(i as int)),
        decreases n - i,
    {
        let c = s.get_char(i);
        if !('0' <= c && c <= '9') {
            proof {
                assert(!is_digit(s@[i as int]));
            }
            return None;
        }
        let d = (c as u32 - '0' as u32) as u64;
        proof {
            assert(d == digit_val(c));
        }
        if val > (u64::MAX - d) / 10 {
            proof {
                let q = ((u64::MAX - d) / 10) as int;
                vstd::arithmetic::div_mod::lemma_fundamental_div_mod((u64::MAX - d) as int, 10);
                assert((u64::MAX - d) as int == 10 * q + (u64::MAX - d) as int % 10);
                assert((u64::MAX - d) as int % 10 < 10);
                assert(val as int * 10 >= (q + 1) * 10) by (nonlinear_arith)
                    requires
                        val as int >= q + 1,
                ;
                assert(dec_val(s@.take(i as int)) * 10 + digit_val(c) > u64::MAX);
                assert(s@.take(i + 1).drop_last() =~= s@.take(i as int));
                assert(dec_val(s@.take(i + 1)) > u64::MAX);
                lemma_dec_val_prefix(s@, i + 1);
                assert(dec_val(s@) > u64::MAX);
            }
            return None;
        }
        proof {
            let q = ((u64::MAX - d) / 10) as int;
            vstd::arithmetic::div_mod::lemma_fundamental_div_mod((u64::MAX - d) as int, 10);
            assert(val as int * 10 <= q * 10) by (nonlinear_arith)
                requires
                    val as int <= q,
            ;
            assert(val as int * 10 + d <= u64::MAX);
            assert(s@.take(i + 1).drop_last() =~= s@.take(i as int));
            assert(s@.take(i + 1).last() == s@[i as int]);
        }
        val = val * 10 + d;
        i += 1;
    }
    proof {
        assert(s@.take(n as int) =~= s@);
    }
    Some(val)
}

} // verus!

