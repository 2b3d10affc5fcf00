//! Line normalizer: splits raw file bytes into physical lines, trims each,
//! drops blank and comment lines, and numbers what is left with its 1-based
//! position in the file. This stage cannot fail.

use vstd::prelude::*;

use crate::scan::{first_sep, find_from, is_ws, lemma_first_sep_bounds, subvec, ws_byte};

verus! {

/// `s` without leading and trailing whitespace.
pub open spec fn trim_spec(s: Seq<u8>) -> Seq<u8>
    decreases s.len(),
{
    if s.len() == 0 {
        s
    } else if is_ws(s[0]) {
        trim_spec(s.skip(1))
    } else if is_ws(s[s.len() - 1]) {
        trim_spec(s.drop_last())
    } else {
        s
    }
}

/// Trimming is exactly cutting at the first and last non-whitespace bytes.
proof fn lemma_trim_at(s: Seq<u8>, a: int, b: int)
    requires
        0 <= a <= b <= s.len(),
        forall|k: int| 0 <= k < a ==> is_ws(s[k]),
        forall|k: int| b <= k < s.len() ==> is_ws(s[k]),
        a < b ==> !is_ws(s[a]) && !is_ws(s[b - 1]),
    ensures
        trim_spec(s) == s.subrange(a, b),
    decreases s.len(),
{
    if s.len() == 0 {
        assert(trim_spec(s) =~= s.subrange(a, b));
    } else if is_ws(s[0]) {
        if a == 0 {
            assert(b == 0);
        }
        let t = s.skip(1);
        let (a2, b2) = if a == 0 { (0int, 0int) } else { (a - 1, b - 1) };
        assert forall|k: int| 0 <= k < a2 implies is_ws(t[k]) by {
            assert(t[k] == s[k + 1]);
        }
        assert forall|k: int| b2 <= k < t.len() implies is_ws(t[k]) by {
            assert(t[k] == s[k + 1]);
        }
        lemma_trim_at(t, a2, b2);
        assert(t.subrange(a2, b2) =~= s.subrange(a, b));
    } else if is_ws(s[s.len() - 1]) {
        // the first byte is not whitespace, so a == 0, and a < b would put a
        // non-whitespace byte at b - 1 == s.len() - 1; hence b < s.len()
        assert(a == 0 || (a == b && a == s.len() && is_ws(s[0])));
        let t = s.drop_last();
        assert(b < s.len());
        assert forall|k: int| b <= k < t.len() implies is_ws(t[k]) by {
            assert(t[k] == s[k]);
        }
        lemma_trim_at(t, a, b);
        assert(t.subrange(a, b) =~= s.subrange(a, b));
    } else {
        assert(a == 0);
        assert(b == s.len());
        assert(trim_spec(s) =~= s.subrange(a, b));
    }
}

/// Copy of `v` without leading and trailing whitespace.
pub fn trim_vec(v: &Vec<u8>) -> (r: Vec<u8>)
    ensures
        r@ == trim_spec(v@),
{
    let mut a: usize = 0;
    while a < v.len() && ws_byte(v[a])
        invariant
            a <= v@.len(),
            forall|k: int| 0 <= k < a ==> is_ws(v@[k]),
        decreases v@.len() - a,
    {
        a = a + 1;
    }
    let mut b: usize = v.len();
    while b > a && ws_byte(v[b - 1])
        invariant
            a <= b <= v@.len(),
            forall|k: int| b <= k < v@.len() ==> is_ws(v@[k]),
        decreases b,
    {
        b = b - 1;
    }
    proof {
        lemma_trim_at(v@, a as int, b as int);
    }
    subvec(v, a, b)
}

/// `s` split on every occurrence of `sep`; never empty, and a trailing
/// separator yields a trailing empty piece.
pub open spec fn split_all(s: Seq<u8>, sep: u8) -> Seq<Seq<u8>>
    decreases s.len(),
{
    let i = first_sep(s, sep);
    if i >= s.len() {
        seq![s]
    } else {
        seq![s.take(i as int)] + split_all(s.skip(i as int + 1), sep)
    }
}

pub open spec fn lines_view(s: Seq<Vec<u8>>) -> Seq<Seq<u8>> {
    s.map_values(|v: Vec<u8>| v@)
}

/// The physical lines of `data`: split on newline bytes.
pub fn split_lines(data: &Vec<u8>) -> (r: Vec<Vec<u8>>)
    ensures
        lines_view(r@) == split_all(data@, 10),
{
    let mut r: Vec<Vec<u8>> = Vec::new();
    let mut pos: usize = 0;
    let mut fin: bool = false;
    proof {
        assert(data@.skip(0) =~= data@);
        assert(lines_view(r@) + split_all(data@, 10) =~= split_all(data@, 10));
    }
    while !fin
        invariant
            pos <= data@.len(),
            !fin ==> lines_view(r@) + split_all(data@.skip(pos as int), 10) =~= split_all(
                data@,
                10,
            ),
            fin ==> lines_view(r@) =~= split_all(data@, 10),
        decreases data@.len() - pos + (if fin { 0int } else { 1 }),
    {
        let ghost rem = data@.skip(pos as int);
        let j = find_from(data, pos, 10);
        let seg = subvec(data, pos, j);
        proof {
            lemma_first_sep_bounds(rem, 10);
            assert(seg@ =~= rem.take(j - pos));
        }
        let ghost prev = r@;
        r.push(seg);
        proof {
            assert(lines_view(r@) =~= lines_view(prev).push(seg@));
        }
        if j == data.len() {
            proof {
                assert(seg@ =~= rem);
                assert(split_all(rem, 10) =~= seq![rem]);
                assert(lines_view(r@) =~= lines_view(prev) + seq![rem]);
            }
            fin = true;
        } else {
            proof {
                assert(split_all(rem, 10) =~= seq![rem.take(j - pos)] + split_all(
                    rem.skip(j - pos + 1),
                    10,
                ));
                assert(rem.skip(j - pos + 1) =~= data@.skip(j + 1));
                assert(lines_view(r@) + split_all(data@.skip(j + 1), 10) =~= lines_view(prev)
                    + split_all(rem, 10));
            }
            pos = j + 1;
        }
    }
    r
}

/// A trimmed line is kept when it is non-empty and no comment (`#`).
pub open spec fn keep_line(t: Seq<u8>) -> bool {
    t.len() > 0 && t[0] != 35
}

/// The kept lines of a file, each trimmed and paired with its 1-based
/// position among the physical lines.
pub open spec fn normalize_lines(ls: Seq<Seq<u8>>) -> Seq<(usize, Seq<u8>)>
    decreases ls.len(),
{
    if ls.len() == 0 {
        Seq::empty()
    } else {
        let prev = normalize_lines(ls.drop_last());
        let t = trim_spec(ls.last());
        if keep_line(t) {
            prev.push((ls.len() as usize, t))
        } else {
            prev
        }
    }
}

/// The normalizer's result on whole file contents.
pub open spec fn normalize(data: Seq<u8>) -> Seq<(usize, Seq<u8>)> {
    normalize_lines(split_all(data, 10))
}

pub open spec fn pairs_view(s: Seq<(usize, Vec<u8>)>) -> Seq<(usize, Seq<u8>)> {
    s.map_values(|p: (usize, Vec<u8>)| (p.0, p.1@))
}

/// Line numbers in the normalizer's output are between 1 and the number of
/// physical lines, and strictly ascend.
pub proof fn lemma_normalize_ids(ls: Seq<Seq<u8>>)
    requires
        ls.len() <= usize::MAX,
    ensures
        forall|i: int|
            0 <= i < normalize_lines(ls).len() ==> 1 <= #[trigger] normalize_lines(ls)[i].0
                <= ls.len(),
        forall|i: int, j: int|
            0 <= i < j < normalize_lines(ls).len() ==> normalize_lines(ls)[i].0
                < normalize_lines(ls)[j].0,
    decreases ls.len(),
{
    if ls.len() == 0 {
    } else {
        lemma_normalize_ids(ls.drop_last());
        let prev = normalize_lines(ls.drop_last());
        let cur = normalize_lines(ls);
        let t = trim_spec(ls.last());
        if keep_line(t) {
            assert(cur == prev.push((ls.len() as usize, t)));
        } else {
            assert(cur == prev);
        }
        assert forall|i: int| 0 <= i < cur.len() implies 1 <= #[trigger] cur[i].0 <= ls.len() by {
            if i < prev.len() {
                assert(cur[i] == prev[i]);
                assert(1 <= prev[i].0 <= ls.drop_last().len());
            }
        }
        assert forall|i: int, j: int| 0 <= i < j < cur.len() implies cur[i].0 < cur[j].0 by {
            if j < prev.len() {
                assert(cur[i] == prev[i]);
                assert(cur[j] == prev[j]);
            } else {
                assert(cur[i] == prev[i]);
                assert(1 <= prev[i].0 <= ls.drop_last().len());
            }
        }
    }
}

/// Splits file contents into trimmed definition lines keyed by their
/// 1-based line number; blank lines and `#` comments get no entry.
pub fn parse_file_data(data: &Vec<u8>) -> (r: Vec<(usize, Vec<u8>)>)
    ensures
        pairs_view(r@) == normalize(data@),
        forall|i: int, j: int| 0 <= i < j < r@.len() ==> r@[i].0 < r@[j].0,
{
    let lines = split_lines(data);
    let mut r: Vec<(usize, Vec<u8>)> = Vec::new();
    let ghost lv = lines_view(lines@);
    let mut i: usize = 0;
    while i < lines.len()
        invariant
            i <= lines@.len(),
            lv == lines_view(lines@),
            lv == split_all(data@, 10),
            pairs_view(r@) =~= normalize_lines(lv.take(i as int)),
        decreases lines@.len() - i,
    {
        let t = trim_vec(&lines[i]);
        let ghost prev = r@;
        proof {
            assert(lv.take(i + 1).drop_last() =~= lv.take(i as int));
            assert(lv.take(i + 1).last() == lines@[i as int]@);
        }
        if t.len() > 0 && t[0] != 35 {
            r.push((i + 1, t));
            proof {
                assert(pairs_view(r@) =~= pairs_view(prev).push(((i + 1) as usize, t@)));
            }
        }
        i = i + 1;
    }
    proof {
        assert(lv.take(lines@.len() as int) =~= lv);
        lemma_normalize_ids(lv);
        assert forall|a: int, b: int| 0 <= a < b < r@.len() implies r@[a].0 < r@[b].0 by {
            assert(pairs_view(r@)[a].0 == r@[a].0);
            assert(pairs_view(r@)[b].0 == r@[b].0);
        }
    }
    r
}

} // verus!
