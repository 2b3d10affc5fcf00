//! Table assembler: joins the port-set and payload derivations by line
//! number into a table keyed by port-set value, kept strictly ascending in
//! the lexicographic order of port sequences. When two lines yield the
//! same port set, the later line's payload wins.

use vstd::prelude::*;

use crate::lines::pairs_view;
use crate::ports::pmap_view;
use crate::warn::Warning;

verus! {

/// Lexicographic order on port sequences, as `Vec<u16>` compares.
pub open spec fn lex_lt(a: Seq<u16>, b: Seq<u16>) -> bool
    decreases a.len(),
{
    if b.len() == 0 {
        false
    } else if a.len() == 0 {
        true
    } else if a[0] < b[0] {
        true
    } else if a[0] > b[0] {
        false
    } else {
        lex_lt(a.skip(1), b.skip(1))
    }
}

/// Exactly one of `a < b`, `a == b`, `b < a` holds.
pub proof fn lemma_lex_total(a: Seq<u16>, b: Seq<u16>)
    ensures
        lex_lt(a, b) || lex_lt(b, a) || a == b,
        lex_lt(a, b) ==> !lex_lt(b, a) && a != b,
        lex_lt(b, a) ==> !lex_lt(a, b) && a != b,
    decreases a.len(),
{
    if a.len() == 0 || b.len() == 0 {
        if a.len() == 0 && b.len() == 0 {
            assert(a =~= b);
        }
    } else if a[0] == b[0] {
        lemma_lex_total(a.skip(1), b.skip(1));
        if a.skip(1) == b.skip(1) {
            assert(a =~= seq![a[0]] + a.skip(1));
            assert(b =~= seq![b[0]] + b.skip(1));
        }
    }
}

/// Lexicographic order is transitive.
pub proof fn lemma_lex_trans(a: Seq<u16>, b: Seq<u16>, c: Seq<u16>)
    requires
        lex_lt(a, b),
        lex_lt(b, c),
    ensures
        lex_lt(a, c),
    decreases a.len() + b.len() + c.len(),
{
    if a.len() == 0 || b.len() == 0 || c.len() == 0 {
    } else {
        if a[0] == b[0] && b[0] == c[0] {
            lemma_lex_trans(a.skip(1), b.skip(1), c.skip(1));
        }
    }
}

/// `a < b` on vectors, by the order their views compare in.
pub fn vec_u16_lt(a: &Vec<u16>, b: &Vec<u16>) -> (r: bool)
    ensures
        r == lex_lt(a@, b@),
{
    let mut i: usize = 0;
    proof {
        assert(a@.skip(0) =~= a@);
        assert(b@.skip(0) =~= b@);
    }
    while i < a.len() && i < b.len()
        invariant
            i <= a@.len(),
            i <= b@.len(),
            lex_lt(a@, b@) == lex_lt(a@.skip(i as int), b@.skip(i as int)),
        decreases a@.len() - i,
    {
        let x = a[i];
        let y = b[i];
        proof {
            assert(a@.skip(i as int)[0] == a@[i as int]);
            assert(b@.skip(i as int)[0] == b@[i as int]);
            assert(a@.skip(i as int).skip(1) =~= a@.skip(i as int + 1));
            assert(b@.skip(i as int).skip(1) =~= b@.skip(i as int + 1));
        }
        if x < y {
            return true;
        }
        if x > y {
            return false;
        }
        i = i + 1;
    }
    if i < b.len() {
        // a is a strict prefix of b
        true
    } else {
        false
    }
}

/// View of the table as pairs of port and payload sequences.
pub open spec fn tview(s: Seq<(Vec<u16>, Vec<u8>)>) -> Seq<(Seq<u16>, Seq<u8>)> {
    s.map_values(|e: (Vec<u16>, Vec<u8>)| (e.0@, e.1@))
}

/// Keys strictly ascend: deterministic iteration order and unique keys.
pub open spec fn table_sorted(s: Seq<(Seq<u16>, Seq<u8>)>) -> bool {
    forall|i: int, j: int| 0 <= i < j < s.len() ==> lex_lt(s[i].0, s[j].0)
}

/// The payload stored under key `q`: the last entry with that key.
pub open spec fn table_lookup(s: Seq<(Seq<u16>, Seq<u8>)>, q: Seq<u16>) -> Option<Seq<u8>>
    decreases s.len(),
{
    if s.len() == 0 {
        None
    } else if s.last().0 == q {
        Some(s.last().1)
    } else {
        table_lookup(s.drop_last(), q)
    }
}

proof fn lemma_lookup_concat(s1: Seq<(Seq<u16>, Seq<u8>)>, s2: Seq<(Seq<u16>, Seq<u8>)>, q: Seq<
    u16,
>)
    ensures
        table_lookup(s1 + s2, q) == (match table_lookup(s2, q) {
            Some(v) => Some(v),
            None => table_lookup(s1, q),
        }),
    decreases s2.len(),
{
    if s2.len() == 0 {
        assert(s1 + s2 =~= s1);
    } else {
        assert((s1 + s2).last() == s2.last());
        if s2.last().0 != q {
            assert((s1 + s2).drop_last() =~= s1 + s2.drop_last());
            lemma_lookup_concat(s1, s2.drop_last(), q);
        }
    }
}

proof fn lemma_lookup_none(s: Seq<(Seq<u16>, Seq<u8>)>, q: Seq<u16>)
    requires
        forall|j: int| 0 <= j < s.len() ==> s[j].0 != q,
    ensures
        table_lookup(s, q) == None::<Seq<u8>>,
    decreases s.len(),
{
    if s.len() > 0 {
        lemma_lookup_none(s.drop_last(), q);
    }
}

/// Inserts under `ports`, keeping keys strictly ascending; an equal key's
/// payload is overwritten.
pub fn table_insert(t: &mut Vec<(Vec<u16>, Vec<u8>)>, ports: Vec<u16>, payload: Vec<u8>)
    requires
        table_sorted(tview(old(t)@)),
    ensures
        table_sorted(tview(final(t)@)),
        forall|q: Seq<u16>| #![all_triggers]
            table_lookup(tview(final(t)@), q) == (if q == ports@ {
                Some(payload@)
            } else {
                table_lookup(tview(old(t)@), q)
            }),
{
    let ghost k = ports@;
    let ghost tv = tview(t@);
    let mut idx: usize = 0;
    while idx < t.len() && vec_u16_lt(&t[idx].0, &ports)
        invariant
            idx <= t@.len(),
            t@ == old(t)@,
            tv == tview(t@),
            k == ports@,
            forall|j: int| 0 <= j < idx ==> lex_lt(tv[j].0, k),
        decreases t@.len() - idx,
    {
        proof {
            assert(tv[idx as int].0 == t@[idx as int].0@);
        }
        idx = idx + 1;
    }
    proof {
        if idx < t@.len() {
            assert(tv[idx as int].0 == t@[idx as int].0@);
            assert(!lex_lt(tv[idx as int].0, k));
        }
    }
    if idx == t.len() {
        t.push((ports, payload));
        proof {
            assert(tview(t@) =~= tv.push((k, payload@)));
            let nv = tview(t@);
            assert forall|i: int, j: int| 0 <= i < j < nv.len() implies lex_lt(
                nv[i].0,
                nv[j].0,
            ) by {
                if j == nv.len() - 1 {
                    assert(nv[i] == tv[i]);
                } else {
                    assert(nv[i] == tv[i]);
                    assert(nv[j] == tv[j]);
                }
            }
            assert forall|q: Seq<u16>| #![all_triggers]
                table_lookup(nv, q) == (if q == k {
                    Some(payload@)
                } else {
                    table_lookup(tv, q)
                }) by {
                assert(nv.last() == (k, payload@));
                assert(nv.drop_last() =~= tv);
            }
        }
    } else {
        let eq = !vec_u16_lt(&ports, &t[idx].0);
        proof {
            lemma_lex_total(k, tv[idx as int].0);
        }
        if eq {
            // equal key: replace the payload, keeping the position
            proof {
                assert(tv[idx as int].0 == k);
            }
            let _ = t.remove(idx);
            t.insert(idx, (ports, payload));
            proof {
                let nv = tview(t@);
                assert(nv =~= tv.take(idx as int) + seq![(k, payload@)] + tv.skip(
                    idx as int + 1,
                ));
                assert forall|i: int, j: int| 0 <= i < j < nv.len() implies lex_lt(
                    nv[i].0,
                    nv[j].0,
                ) by {
                    if i < idx {
                        assert(nv[i] == tv[i]);
                    } else if i == idx {
                        assert(nv[i].0 == k);
                    } else {
                        assert(nv[i] == tv[i]);
                    }
                    if j < idx {
                        assert(nv[j] == tv[j]);
                    } else if j == idx {
                        assert(nv[j].0 == k);
                    } else {
                        assert(nv[j] == tv[j]);
                    }
                    assert(lex_lt(tv[i].0, tv[j].0));
                }
                assert forall|q: Seq<u16>| #![all_triggers]
                    table_lookup(nv, q) == (if q == k {
                        Some(payload@)
                    } else {
                        table_lookup(tv, q)
                    }) by {
                    let mid = seq![(k, payload@)];
                    let omid = seq![tv[idx as int]];
                    assert(mid.last() == (k, payload@));
                    assert(mid.drop_last() =~= Seq::<(Seq<u16>, Seq<u8>)>::empty());
                    assert(omid.last() == tv[idx as int]);
                    assert(omid.drop_last() =~= Seq::<(Seq<u16>, Seq<u8>)>::empty());
                    assert(table_lookup(Seq::<(Seq<u16>, Seq<u8>)>::empty(), q) is None);
                    let pre = tv.take(idx as int) + mid;
                    let suf = tv.skip(idx as int + 1);
                    assert(nv =~= pre + suf);
                    lemma_lookup_concat(pre, suf, q);
                    lemma_lookup_concat(tv.take(idx as int), mid, q);
                    let opre = tv.take(idx as int) + omid;
                    assert(tv =~= opre + suf);
                    lemma_lookup_concat(opre, suf, q);
                    lemma_lookup_concat(tv.take(idx as int), omid, q);
                    assert forall|j: int| 0 <= j < suf.len() implies suf[j].0 != k by {
                        assert(suf[j] == tv[idx + 1 + j]);
                        assert(lex_lt(tv[idx as int].0, tv[idx + 1 + j].0));
                        lemma_lex_total(k, tv[idx + 1 + j].0);
                    }
                    if q == k {
                        lemma_lookup_none(suf, q);
                    }
                }
            }
        } else {
            // strictly between the scanned prefix and the rest
            proof {
                assert(lex_lt(k, tv[idx as int].0));
            }
            t.insert(idx, (ports, payload));
            proof {
                let nv = tview(t@);
                assert(nv =~= tv.take(idx as int) + seq![(k, payload@)] + tv.skip(idx as int));
                assert forall|i: int, j: int| 0 <= i < j < nv.len() implies lex_lt(
                    nv[i].0,
                    nv[j].0,
                ) by {
                    if i < idx {
                        assert(nv[i] == tv[i]);
                    } else if i > idx {
                        assert(nv[i] == tv[i - 1]);
                    }
                    if j < idx {
                        assert(nv[j] == tv[j]);
                    } else if j > idx {
                        assert(nv[j] == tv[j - 1]);
                    }
                    if i < idx && j == idx {
                        assert(lex_lt(tv[i].0, k));
                    } else if i == idx && j > idx + 1 {
                        assert(lex_lt(tv[idx as int].0, tv[j - 1].0));
                        lemma_lex_trans(k, tv[idx as int].0, tv[j - 1].0);
                    } else if i < idx && j > idx {
                        assert(lex_lt(tv[i].0, tv[j - 1].0));
                    }
                }
                assert forall|q: Seq<u16>| #![all_triggers]
                    table_lookup(nv, q) == (if q == k {
                        Some(payload@)
                    } else {
                        table_lookup(tv, q)
                    }) by {
                    let mid = seq![(k, payload@)];
                    assert(mid.last() == (k, payload@));
                    assert(mid.drop_last() =~= Seq::<(Seq<u16>, Seq<u8>)>::empty());
                    assert(table_lookup(Seq::<(Seq<u16>, Seq<u8>)>::empty(), q) is None);
                    let pre = tv.take(idx as int) + mid;
                    let suf = tv.skip(idx as int);
                    assert(nv =~= pre + suf);
                    lemma_lookup_concat(pre, suf, q);
                    lemma_lookup_concat(tv.take(idx as int), mid, q);
                    assert(tv =~= tv.take(idx as int) + suf);
                    lemma_lookup_concat(tv.take(idx as int), suf, q);
                    assert forall|j: int| 0 <= j < suf.len() implies suf[j].0 != k by {
                        assert(suf[j] == tv[idx + j]);
                        if j == 0 {
                            lemma_lex_total(k, tv[idx as int].0);
                        } else {
                            assert(lex_lt(tv[idx as int].0, tv[idx + j].0));
                            lemma_lex_trans(k, tv[idx as int].0, tv[idx + j].0);
                            lemma_lex_total(k, tv[idx + j].0);
                        }
                    }
                    if q == k {
                        lemma_lookup_none(suf, q);
                    }
                }
            }
        }
    }
}

/// The payload derived for a line number, if any: first match, though line
/// numbers are unique in every map the pipeline builds.
pub open spec fn lookup_line_pay(m: Seq<(usize, Seq<u8>)>, line: usize) -> Option<Seq<u8>>
    decreases m.len(),
{
    if m.len() == 0 {
        None
    } else if m[0].0 == line {
        Some(m[0].1)
    } else {
        lookup_line_pay(m.skip(1), line)
    }
}

/// Finds the payload stored for a line number.
fn find_line_payload(payb: &Vec<(usize, Vec<u8>)>, line: usize) -> (r: Option<Vec<u8>>)
    ensures
        (match r {
            Some(v) => lookup_line_pay(pairs_view(payb@), line) == Some(v@),
            None => lookup_line_pay(pairs_view(payb@), line) is None,
        }),
{
    let ghost mv = pairs_view(payb@);
    let mut i: usize = 0;
    proof {
        assert(mv.skip(0) =~= mv);
    }
    while i < payb.len()
        invariant
            i <= payb@.len(),
            mv == pairs_view(payb@),
            lookup_line_pay(mv, line) == lookup_line_pay(mv.skip(i as int), line),
        decreases payb@.len() - i,
    {
        proof {
            assert(mv.skip(i as int)[0] == mv[i as int]);
            assert(mv[i as int] == (payb@[i as int].0, payb@[i as int].1@));
            assert(mv.skip(i as int).skip(1) =~= mv.skip(i as int + 1));
        }
        if payb[i].0 == line {
            let v = vstd::slice::slice_to_vec(payb[i].1.as_slice());
            return Some(v);
        }
        i = i + 1;
    }
    None
}

/// The payload the final table holds under port set `q`: that of the last
/// line whose port set is `q` and whose payload was decodable.
pub open spec fn joined(
    pb: Seq<(usize, Seq<u16>)>,
    payb: Seq<(usize, Seq<u8>)>,
    q: Seq<u16>,
) -> Option<Seq<u8>>
    decreases pb.len(),
{
    if pb.len() == 0 {
        None
    } else if pb.last().1 == q && lookup_line_pay(payb, pb.last().0) is Some {
        lookup_line_pay(payb, pb.last().0)
    } else {
        joined(pb.drop_last(), payb, q)
    }
}

/// Warnings of the join: one per line with a port set but no payload.
pub open spec fn assemble_warns(pb: Seq<(usize, Seq<u16>)>, payb: Seq<(usize, Seq<u8>)>) -> Seq<
    Warning,
>
    decreases pb.len(),
{
    if pb.len() == 0 {
        Seq::empty()
    } else {
        assemble_warns(pb.drop_last(), payb) + (if lookup_line_pay(payb, pb.last().0) is Some {
            Seq::empty()
        } else {
            seq![Warning::NoPayload { line: pb.last().0 }]
        })
    }
}

/// Joins the two derivations into the final table: every line with both a
/// port set and a payload contributes an entry keyed by the port set,
/// later lines overwriting earlier equal keys; keys ascend strictly.
pub fn port_payload_map(
    pb_linenr: Vec<(usize, Vec<u16>)>,
    payb_linenr: Vec<(usize, Vec<u8>)>,
) -> (r: (Vec<(Vec<u16>, Vec<u8>)>, Vec<Warning>))
    ensures
        table_sorted(tview(r.0@)),
        forall|q: Seq<u16>| #![all_triggers]
            table_lookup(tview(r.0@), q) == joined(
                pmap_view(pb_linenr@),
                pairs_view(payb_linenr@),
                q,
            ),
        r.1@ == assemble_warns(pmap_view(pb_linenr@), pairs_view(payb_linenr@)),
{
    let ghost pv = pmap_view(pb_linenr@);
    let ghost yv = pairs_view(payb_linenr@);
    let mut t: Vec<(Vec<u16>, Vec<u8>)> = Vec::new();
    let mut warns: Vec<Warning> = Vec::new();
    let mut i: usize = 0;
    while i < pb_linenr.len()
        invariant
            i <= pb_linenr@.len(),
            pv == pmap_view(pb_linenr@),
            yv == pairs_view(payb_linenr@),
            table_sorted(tview(t@)),
            forall|q: Seq<u16>| #![all_triggers]
                table_lookup(tview(t@), q) == joined(pv.take(i as int), yv, q),
            warns@ =~= assemble_warns(pv.take(i as int), yv),
        decreases pb_linenr@.len() - i,
    {
        let line = pb_linenr[i].0;
        proof {
            assert(pv[i as int] == (pb_linenr@[i as int].0, pb_linenr@[i as int].1@));
            assert(pv.take(i + 1).drop_last() =~= pv.take(i as int));
            assert(pv.take(i + 1).last() == pv[i as int]);
        }
        let ghost t0 = tview(t@);
        let ghost w0 = warns@;
        match find_line_payload(&payb_linenr, line) {
            Some(payload) => {
                let ports = vstd::slice::slice_to_vec(pb_linenr[i].1.as_slice());
                let ghost pay = payload@;
                table_insert(&mut t, ports, payload);
                proof {
                    assert forall|q: Seq<u16>| #![all_triggers]
                        table_lookup(tview(t@), q) == joined(pv.take(i + 1), yv, q) by {
                        if q == pv[i as int].1 {
                            assert(table_lookup(tview(t@), q) == Some(pay));
                        } else {
                            assert(table_lookup(tview(t@), q) == table_lookup(t0, q));
                        }
                    }
                    assert(warns@ =~= assemble_warns(pv.take(i + 1), yv));
                }
            },
            None => {
                warns.push(Warning::NoPayload { line });
                proof {
                    assert forall|q: Seq<u16>| #![all_triggers]
                        table_lookup(tview(t@), q) == joined(pv.take(i + 1), yv, q) by {
                        assert(table_lookup(tview(t@), q) == joined(pv.take(i as int), yv, q));
                    }
                    assert(warns@ =~= assemble_warns(pv.take(i + 1), yv));
                }
            },
        }
        i = i + 1;
    }
    proof {
        assert(pv.take(pb_linenr@.len() as int) =~= pv);
    }
    (t, warns)
}

/// The accessor over the final table: the payload under `ports`, or
/// `None` when the table holds no such port set.
pub fn table_get(table: &Vec<(Vec<u16>, Vec<u8>)>, ports: &Vec<u16>) -> (r: Option<Vec<u8>>)
    ensures
        (match r {
            Some(v) => table_lookup(tview(table@), ports@) == Some(v@),
            None => table_lookup(tview(table@), ports@) is None,
        }),
{
    let ghost tv = tview(table@);
    let mut i: usize = table.len();
    proof {
        assert(tv.take(table@.len() as int) =~= tv);
    }
    while i > 0
        invariant
            i <= table@.len(),
            tv == tview(table@),
            table_lookup(tv, ports@) == table_lookup(tv.take(i as int), ports@),
        decreases i,
    {
        proof {
            assert(tv.take(i as int).last() == tv[i - 1]);
            assert(tv[i - 1] == (table@[i - 1].0@, table@[i - 1].1@));
            assert(tv.take(i as int).drop_last() =~= tv.take(i - 1));
        }
        let eq = vec_u16_eq(&table[i - 1].0, ports);
        if eq {
            let v = vstd::slice::slice_to_vec(table[i - 1].1.as_slice());
            return Some(v);
        }
        i = i - 1;
    }
    proof {
        assert(tv.take(0) =~= Seq::<(Seq<u16>, Seq<u8>)>::empty());
    }
    None
}

/// Element-wise equality of two port vectors.
pub fn vec_u16_eq(a: &Vec<u16>, b: &Vec<u16>) -> (r: bool)
    ensures
        r == (a@ == b@),
{
    if a.len() != b.len() {
        proof {
            assert(a@ != b@);
        }
        return false;
    }
    let mut i: usize = 0;
    while i < a.len()
        invariant
            i <= a@.len(),
            a@.len() == b@.len(),
            forall|k: int| 0 <= k < i ==> a@[k] == b@[k],
        decreases a@.len() - i,
    {
        if a[i] != b[i] {
            proof {
                assert(a@[i as int] != b@[i as int]);
            }
            return false;
        }
        i = i + 1;
    }
    proof {
        assert(a@ =~= b@);
    }
    true
}

/// When two distinct lines derive the same port set and the later one has
/// a decodable payload (and no still-later line shares the key), the
/// table's value for that key is the later line's payload: last write
/// wins.
pub proof fn lemma_last_write_wins(
    pb: Seq<(usize, Seq<u16>)>,
    payb: Seq<(usize, Seq<u8>)>,
    i: int,
    j: int,
)
    requires
        0 <= i < j < pb.len(),
        pb[i].1 == pb[j].1,
        lookup_line_pay(payb, pb[j].0) is Some,
        forall|k: int|
            j < k < pb.len() ==> !(pb[k].1 == pb[j].1 && lookup_line_pay(payb, pb[k].0) is Some),
    ensures
        joined(pb, payb, pb[j].1) == lookup_line_pay(payb, pb[j].0),
    decreases pb.len(),
{
    if j == pb.len() - 1 {
        assert(pb.last() == pb[j]);
    } else {
        assert(pb.last() == pb[pb.len() - 1]);
        assert(!(pb[pb.len() - 1].1 == pb[j].1 && lookup_line_pay(
            payb,
            pb[pb.len() - 1].0,
        ) is Some));
        assert(pb.drop_last()[i] == pb[i]);
        assert(pb.drop_last()[j] == pb[j]);
        assert forall|k: int|
            j < k < pb.drop_last().len() implies !(pb.drop_last()[k].1 == pb.drop_last()[j].1
            && lookup_line_pay(payb, pb.drop_last()[k].0) is Some) by {
            assert(pb.drop_last()[k] == pb[k]);
        }
        lemma_last_write_wins(pb.drop_last(), payb, i, j);
    }
}

} // verus!
