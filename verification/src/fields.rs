//! Token triple: a definition line split on its first two spaces into at
//! most three fields. Everything after the second space, further spaces
//! included, is one field.

use vstd::prelude::*;

use crate::scan::{find_from, first_sep, lemma_first_sep_bounds, sp, subvec};
use crate::lines::lines_view;

verus! {

/// `s` split on the first two spaces: one to three fields.
pub open spec fn split3(s: Seq<u8>) -> Seq<Seq<u8>> {
    let i = first_sep(s, sp());
    if i >= s.len() {
        seq![s]
    } else {
        let rest = s.skip(i as int + 1);
        let j = first_sep(rest, sp());
        if j >= rest.len() {
            seq![s.take(i as int), rest]
        } else {
            seq![s.take(i as int), rest.take(j as int), rest.skip(j as int + 1)]
        }
    }
}

pub open spec fn no_space(f: Seq<u8>) -> bool {
    forall|k: int| 0 <= k < f.len() ==> f[k] != sp()
}

/// Splitting on the first two spaces yields one to three fields; every
/// field but the last is space-free; the fields, rejoined with single
/// spaces, are exactly the line, so the last field keeps its inner spaces.
/// Exactly the lines with two or more spaces yield three fields.
pub proof fn lemma_split3_fields(s: Seq<u8>)
    ensures
        1 <= split3(s).len() <= 3,
        split3(s).len() == 1 ==> s == split3(s)[0] && no_space(split3(s)[0]),
        split3(s).len() == 2 ==> s == split3(s)[0] + seq![sp()] + split3(s)[1] && no_space(
            split3(s)[0],
        ) && no_space(split3(s)[1]),
        split3(s).len() == 3 ==> s == split3(s)[0] + seq![sp()] + split3(s)[1] + seq![sp()]
            + split3(s)[2] && no_space(split3(s)[0]) && no_space(split3(s)[1]),
        split3(s).len() == 3 <==> exists|i: int, j: int|
            0 <= i < j < s.len() && s[i] == sp() && s[j] == sp(),
{
    let i = first_sep(s, sp());
    lemma_first_sep_bounds(s, sp());
    if i >= s.len() {
        assert(s == split3(s)[0]);
        assert(forall|a: int, b: int|
            !(0 <= a < b < s.len() && s[a] == sp() && s[b] == sp()));
    } else {
        let rest = s.skip(i as int + 1);
        let j = first_sep(rest, sp());
        lemma_first_sep_bounds(rest, sp());
        if j >= rest.len() {
            assert(s =~= s.take(i as int) + seq![sp()] + rest);
            assert forall|a: int, b: int|
                !(0 <= a < b < s.len() && s[a] == sp() && s[b] == sp()) by {
                if 0 <= a < b < s.len() && s[a] == sp() && s[b] == sp() {
                    // two space positions, but the only space in s is at i
                    if a < i {
                        assert(s[a] != sp());
                    } else if a > i {
                        assert(rest[a - i - 1] == s[a]);
                    } else {
                        if b > i {
                            assert(rest[b - i - 1] == s[b]);
                        }
                    }
                }
            }
        } else {
            assert(s =~= s.take(i as int) + seq![sp()] + rest.take(j as int) + seq![sp()]
                + rest.skip(j as int + 1));
            assert(s[i as int] == sp());
            assert(rest[j as int] == sp());
            assert(s[i as int + 1 + j] == rest[j as int]);
            assert(0 <= i < i as int + 1 + j < s.len() && s[i as int] == sp() && s[i as int + 1
                + j] == sp());
        }
    }
}

/// Splits a definition line on its first two spaces.
pub fn split_fields(line: &Vec<u8>) -> (r: Vec<Vec<u8>>)
    ensures
        lines_view(r@) == split3(line@),
        1 <= r@.len() <= 3,
{
    proof {
        lemma_first_sep_bounds(line@, sp());
    }
    let mut r: Vec<Vec<u8>> = Vec::new();
    let i = find_from(line, 0, 32);
    proof {
        assert(line@.skip(0) =~= line@);
    }
    if i == line.len() {
        let whole = subvec(line, 0, line.len());
        proof {
            assert(whole@ =~= line@);
        }
        r.push(whole);
        proof {
            assert(lines_view(r@) =~= split3(line@));
        }
    } else {
        let ghost rest = line@.skip(i + 1);
        let j = find_from(line, i + 1, 32);
        proof {
            lemma_first_sep_bounds(rest, sp());
        }
        let f0 = subvec(line, 0, i);
        proof {
            assert(f0@ =~= line@.take(i as int));
        }
        if j == line.len() {
            let f1 = subvec(line, i + 1, line.len());
            proof {
                assert(f1@ =~= rest);
            }
            r.push(f0);
            r.push(f1);
            proof {
                assert(lines_view(r@) =~= split3(line@));
            }
        } else {
            let f1 = subvec(line, i + 1, j);
            let f2 = subvec(line, j + 1, line.len());
            proof {
                assert(f1@ =~= rest.take(j - i - 1));
                assert(f2@ =~= rest.skip(j - i - 1 + 1));
            }
            r.push(f0);
            r.push(f1);
            r.push(f2);
            proof {
                assert(lines_view(r@) =~= split3(line@));
            }
        }
    }
    r
}

} // verus!
