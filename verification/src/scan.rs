//! Byte classes and the scanning primitives every stage shares: finding a
//! separator, taking a sub-vector, and the facts that connect an executable
//! scan to its specification.

use vstd::prelude::*;

verus! {

/// Byte value of the space character, the field separator.
pub open spec fn sp() -> u8 {
    32
}

/// Whitespace bytes removed by trimming: tab, newline, vertical tab, form
/// feed, carriage return, space.
pub open spec fn is_ws(b: u8) -> bool {
    b == 32 || b == 9 || b == 10 || b == 11 || b == 12 || b == 13
}

pub fn ws_byte(b: u8) -> (r: bool)
    ensures
        r == is_ws(b),
{
    b == 32 || b == 9 || b == 10 || b == 11 || b == 12 || b == 13
}

/// Index of the first occurrence of `sep` in `s`, or `s.len()` when absent.
pub open spec fn first_sep(s: Seq<u8>, sep: u8) -> nat
    decreases s.len(),
{
    if s.len() == 0 {
        0
    } else if s[0] == sep {
        0
    } else {
        1 + first_sep(s.skip(1), sep)
    }
}

pub proof fn lemma_first_sep_bounds(s: Seq<u8>, sep: u8)
    ensures
        first_sep(s, sep) <= s.len(),
        forall|k: int| 0 <= k < first_sep(s, sep) ==> s[k] != sep,
        first_sep(s, sep) < s.len() ==> s[first_sep(s, sep) as int] == sep,
    decreases s.len(),
{
    if s.len() == 0 {
    } else if s[0] == sep {
    } else {
        lemma_first_sep_bounds(s.skip(1), sep);
        assert forall|k: int| 0 <= k < first_sep(s, sep) implies s[k] != sep by {
            if k > 0 {
                assert(s.skip(1)[k - 1] == s[k]);
            }
        }
        if first_sep(s, sep) < s.len() {
            assert(s.skip(1)[first_sep(s, sep) - 1] == s[first_sep(s, sep) as int]);
        }
    }
}

/// A position with no separator before it, and a separator (or the end) at
/// it, is exactly `first_sep`.
pub proof fn lemma_first_sep_at(s: Seq<u8>, sep: u8, i: int)
    requires
        0 <= i <= s.len(),
        forall|k: int| 0 <= k < i ==> s[k] != sep,
        i < s.len() ==> s[i] == sep,
    ensures
        first_sep(s, sep) == i,
    decreases s.len(),
{
    if s.len() == 0 {
    } else if s[0] == sep {
        assert(i == 0);
    } else {
        assert(i != 0);
        assert forall|k: int| 0 <= k < i - 1 implies s.skip(1)[k] != sep by {
            assert(s.skip(1)[k] == s[k + 1]);
        }
        if i - 1 < s.skip(1).len() {
            assert(s.skip(1)[i - 1] == s[i]);
        }
        lemma_first_sep_at(s.skip(1), sep, i - 1);
    }
}

/// First occurrence of `sep` in `v` at or after `from`, or `v.len()`.
pub fn find_from(v: &Vec<u8>, from: usize, sep: u8) -> (r: usize)
    requires
        from <= v@.len(),
    ensures
        from <= r <= v@.len(),
        r - from == first_sep(v@.skip(from as int), sep),
{
    let mut i: usize = from;
    while i < v.len() && v[i] != sep
        invariant
            from <= i <= v@.len(),
            forall|k: int| from <= k < i ==> v@[k] != sep,
        decreases v@.len() - i,
    {
        i = i + 1;
    }
    proof {
        let s = v@.skip(from as int);
        assert forall|k: int| 0 <= k < i - from implies s[k] != sep by {
            assert(s[k] == v@[from + k]);
        }
        if i - from < s.len() {
            assert(s[i - from] == v@[i as int]);
        }
        lemma_first_sep_at(s, sep, i - from);
    }
    i
}

/// Copy of `v[a..b]`.
pub fn subvec(v: &Vec<u8>, a: usize, b: usize) -> (r: Vec<u8>)
    requires
        a <= b <= v@.len(),
    ensures
        r@ == v@.subrange(a as int, b as int),
{
    vstd::slice::slice_to_vec(vstd::slice::slice_subrange(v.as_slice(), a, b))
}

} // verus!
