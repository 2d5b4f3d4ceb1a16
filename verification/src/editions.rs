//! The edition-gap computation: given the edition numbers actually printed
//! for a master edition, the numbers missing between 1 and the largest
//! printed number.

use vstd::prelude::*;

verus! {

/// The largest value in `s`; zero when `s` is empty.
pub open spec fn spec_max(s: Seq<u64>) -> u64
    decreases s.len(),
{
    if s.len() == 0 {
        0
    } else {
        let m = spec_max(s.drop_last());
        if s.last() > m {
            s.last()
        } else {
            m
        }
    }
}

fn vec_contains(v: &Vec<u64>, x: u64) -> (b: bool)
    ensures
        b == v@.contains(x),
{
    let mut j: usize = 0;
    while j < v.len()
        invariant
            0 <= j <= v.len(),
            forall|k: int| 0 <= k < j ==> v@[k] != x,
        decreases v.len() - j,
    {
        if v[j] == x {
            return true;
        }
        j += 1;
    }
    proof {
        if v@.contains(x) {
            let k = choose|k: int| 0 <= k < v@.len() && v@[k] == x;
            assert(false);
        }
    }
    false
}

fn max_of(v: &Vec<u64>) -> (m: u64)
    ensures
        m == spec_max(v@),
{
    let mut m: u64 = 0;
    let mut i: usize = 0;
    while i < v.len()
        invariant
            0 <= i <= v.len(),
            m == spec_max(v@.take(i as int)),
        decreases v.len() - i,
    {
        proof {
            assert(v@.take(i + 1).drop_last() =~= v@.take(i as int));
            assert(v@.take(i + 1).last() == v@[i as int]);
        }
        if v[i] > m {
            m = v[i];
        }
        i += 1;
    }
    proof {
        assert(v@.take(v@.len() as int) =~= v@);
    }
    m
}

/// The edition numbers missing between 1 and the largest number present in
/// `edition_nums`, in increasing order. With no editions at all, nothing is
/// missing.
pub fn find_missing_editions(edition_nums: &Vec<u64>) -> (r: Vec<u64>)
    ensures
        forall|v: u64|
            r@.contains(v) <==> (1 <= v <= spec_max(edition_nums@) && !edition_nums@.contains(v)),
        forall|a: int, b: int| 0 <= a < b < r@.len() ==> r@[a] < r@[b],
{
    let m = max_of(edition_nums);
    let mut out: Vec<u64> = Vec::new();
    if m == 0 {
        return out;
    }
    let mut c: u128 = 1;
    while c <= m as u128
        invariant
            1 <= c <= m as u128 + 1,
            m == spec_max(edition_nums@),
            forall|v: u64|
                out@.contains(v) <==> (1 <= v && (v as u128) < c && !edition_nums@.contains(v)),
            forall|k: int| 0 <= k < out@.len() ==> (out@[k] as u128) < c,
            forall|a: int, b: int| 0 <= a < b < out@.len() ==> out@[a] < out@[b],
        decreases m as u128 + 1 - c,
    {
        let v = c as u64;
        proof {
            assert(v as u128 == c);
        }
        if !vec_contains(edition_nums, v) {
            let ghost old_out = out@;
            out.push(v);
            proof {
                assert(out@ =~= old_out.push(v));
                assert forall|w: u64|
                    out@.contains(w) <==> (1 <= w && (w as u128) < c + 1 && !edition_nums@.contains(
                        w,
                    )) by {
                    if out@.contains(w) {
                        let k = choose|k: int| 0 <= k < out@.len() && out@[k] == w;
                        if k < old_out.len() {
                            assert(old_out[k] == w);
                            assert(old_out.contains(w));
                        } else {
                            assert(w == v);
                        }
                    }
                    if 1 <= w && (w as u128) < c + 1 && !edition_nums@.contains(w) {
                        if (w as u128) < c {
                            assert(old_out.contains(w));
                            let k = choose|k: int| 0 <= k < old_out.len() && old_out[k] == w;
                            assert(out@[k] == w);
                        } else {
                            assert(w == v);
                            assert(out@[old_out.len() as int] == v);
                        }
                    }
                }
            }
        } else {
            proof {
                assert forall|w: u64|
                    out@.contains(w) <==> (1 <= w && (w as u128) < c + 1 && !edition_nums@.contains(
                        w,
                    )) by {
                    if 1 <= w && (w as u128) < c + 1 && !edition_nums@.contains(w) {
                        assert(w != v);
                    }
                }
            }
        }
        c = c + 1;
    }
    proof {
        assert forall|v: u64|
            out@.contains(v) <==> (1 <= v <= spec_max(edition_nums@) && !edition_nums@.contains(
                v,
            )) by {
            if out@.contains(v) {
                assert((v as u128) < m as u128 + 1);
            }
        }
    }
    out
}

} // verus!
