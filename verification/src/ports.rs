//! Port-set decoder: turns a port-selector field into an ordered list of
//! concrete 16-bit ports. A selector is a comma-separated list of single
//! decimal numbers and inclusive `start-end` ranges; a segment that does
//! not parse contributes nothing but a warning.

use vstd::prelude::*;

use crate::scan::{find_from, first_sep, lemma_first_sep_bounds, subvec};
use crate::fields::{split3, split_fields};
use crate::lines::{lines_view, pairs_view};
use crate::warn::Warning;

verus! {

pub open spec fn is_digit(b: u8) -> bool {
    48 <= b <= 57
}

/// Value of a decimal digit string, most significant first.
pub open spec fn dec_val(s: Seq<u8>) -> int
    decreases s.len(),
{
    if s.len() == 0 {
        0
    } else {
        dec_val(s.drop_last()) * 10 + s.last() - 48
    }
}

pub open spec fn all_digits(s: Seq<u8>) -> bool {
    s.len() > 0 && forall|k: int| 0 <= k < s.len() ==> is_digit(s[k])
}

/// What `u16::from_str` accepts: an optional leading `+`, then decimal
/// digits whose value fits in 16 bits.
pub open spec fn parse_u16_spec(s: Seq<u8>) -> Option<u16> {
    let t = if s.len() > 0 && s[0] == 43 {
        s.skip(1)
    } else {
        s
    };
    if all_digits(t) && dec_val(t) <= 65535 {
        Some(dec_val(t) as u16)
    } else {
        None
    }
}

proof fn lemma_dec_val_nonneg(s: Seq<u8>)
    requires
        forall|k: int| 0 <= k < s.len() ==> is_digit(s[k]),
    ensures
        dec_val(s) >= 0,
    decreases s.len(),
{
    if s.len() > 0 {
        lemma_dec_val_nonneg(s.drop_last());
    }
}

/// Appending digits never lowers the value.
proof fn lemma_dec_val_extend(s: Seq<u8>, m: int)
    requires
        0 <= m <= s.len(),
        forall|k: int| 0 <= k < s.len() ==> is_digit(s[k]),
    ensures
        dec_val(s) >= dec_val(s.take(m)),
    decreases s.len() - m,
{
    lemma_dec_val_nonneg(s.take(m));
    if m < s.len() {
        lemma_dec_val_extend(s, m + 1);
        assert(s.take(m + 1).drop_last() =~= s.take(m));
        assert forall|k: int| 0 <= k < s.take(m).len() implies is_digit(s.take(m)[k]) by {
            assert(s.take(m)[k] == s[k]);
        }
        assert(dec_val(s.take(m + 1)) == dec_val(s.take(m)) * 10 + s[m] - 48);
    } else {
        assert(s.take(m) =~= s);
    }
}

/// Parses one decimal port number, as `u16::from_str` would.
pub fn parse_port(seg: &Vec<u8>) -> (r: Option<u16>)
    ensures
        r == parse_u16_spec(seg@),
{
    let start: usize = if seg.len() > 0 && seg[0] == 43 {
        1
    } else {
        0
    };
    let ghost t = if seg@.len() > 0 && seg@[0] == 43 {
        seg@.skip(1)
    } else {
        seg@
    };
    if start >= seg.len() {
        // no digits at all
        return None;
    }
    let mut acc: u32 = 0;
    let mut i: usize = start;
    while i < seg.len()
        invariant
            start <= i <= seg@.len(),
            start <= 1,
            t == seg@.skip(start as int),
            t == (if seg@.len() > 0 && seg@[0] == 43 {
                seg@.skip(1)
            } else {
                seg@
            }),
            forall|k: int| 0 <= k < i - start ==> is_digit(t[k]),
            acc == dec_val(t.take(i - start)),
            acc <= 65535,
        decreases seg@.len() - i,
    {
        let b = seg[i];
        if b < 48 || b > 57 {
            assert(t[i - start] == seg@[i as int]);
            return None;
        }
        proof {
            assert(t.take(i - start + 1).drop_last() =~= t.take(i - start));
            assert(t.take(i - start + 1).last() == t[i - start]);
            assert(t[i - start] == seg@[i as int]);
        }
        acc = acc * 10 + (b - 48) as u32;
        if acc > 65535 {
            proof {
                if all_digits(t) {
                    lemma_dec_val_extend(t, i - start + 1);
                }
            }
            return None;
        }
        i = i + 1;
    }
    proof {
        assert(t.take(i - start) =~= t);
        assert(t.len() > 0);
    }
    Some(acc as u16)
}

/// The ports of an inclusive range, ascending; empty when inverted.
pub open spec fn range_ports(start: u16, end: u16) -> Seq<u16> {
    if start > end {
        Seq::empty()
    } else {
        Seq::new((end - start + 1) as nat, |k: int| (start + k) as u16)
    }
}

/// Appends `start..=end` to `out`.
fn expand_range(out: &mut Vec<u16>, start: u16, end: u16)
    ensures
        final(out)@ == old(out)@ + range_ports(start, end),
{
    if start > end {
        proof {
            assert(old(out)@ + range_ports(start, end) =~= old(out)@);
        }
        return;
    }
    let mut p: u16 = start;
    out.push(p);
    proof {
        assert(old(out)@ + range_ports(start, start) =~= old(out)@.push(start));
    }
    while p < end
        invariant
            start <= p <= end,
            out@ == old(out)@ + range_ports(start, p),
        decreases end - p,
    {
        p = p + 1;
        out.push(p);
        proof {
            assert(old(out)@ + range_ports(start, p) =~= (old(out)@ + range_ports(
                start,
                (p - 1) as u16,
            )).push(p));
        }
    }
}

/// The ports one selector segment contributes: a range when it holds a
/// dash, a single port otherwise; nothing when parsing fails.
pub open spec fn seg_ports(seg: Seq<u8>) -> Seq<u16> {
    let i = first_sep(seg, 45);
    if i < seg.len() {
        match (parse_u16_spec(seg.take(i as int)), parse_u16_spec(seg.skip(i as int + 1))) {
            (Some(a), Some(b)) => range_ports(a, b),
            _ => Seq::empty(),
        }
    } else {
        match parse_u16_spec(seg) {
            Some(p) => seq![p],
            None => Seq::empty(),
        }
    }
}

/// Whether the segment parsed cleanly.
pub open spec fn seg_ok(seg: Seq<u8>) -> bool {
    let i = first_sep(seg, 45);
    if i < seg.len() {
        parse_u16_spec(seg.take(i as int)) is Some && parse_u16_spec(
            seg.skip(i as int + 1),
        ) is Some
    } else {
        parse_u16_spec(seg) is Some
    }
}

pub open spec fn seg_warns(seg: Seq<u8>, line: usize) -> Seq<Warning> {
    if seg_ok(seg) {
        Seq::empty()
    } else {
        seq![Warning::BadSegment { line }]
    }
}

/// Appends one segment's ports and, on a parse failure, its warning.
fn do_segment(seg: &Vec<u8>, line: usize, out: &mut Vec<u16>, warns: &mut Vec<Warning>)
    ensures
        final(out)@ == old(out)@ + seg_ports(seg@),
        final(warns)@ == old(warns)@ + seg_warns(seg@, line),
{
    proof {
        lemma_first_sep_bounds(seg@, 45);
        assert(seg@.skip(0) =~= seg@);
    }
    let i = find_from(seg, 0, 45);
    if i < seg.len() {
        let a = subvec(seg, 0, i);
        let b = subvec(seg, i + 1, seg.len());
        proof {
            assert(a@ =~= seg@.take(i as int));
            assert(b@ =~= seg@.skip(i as int + 1));
        }
        let pa = parse_port(&a);
        let pb = parse_port(&b);
        match (pa, pb) {
            (Some(s), Some(e)) => {
                expand_range(out, s, e);
                proof {
                    assert(old(warns)@ + seg_warns(seg@, line) =~= old(warns)@);
                }
            },
            _ => {
                warns.push(Warning::BadSegment { line });
                proof {
                    assert(old(out)@ + seg_ports(seg@) =~= old(out)@);
                    assert(old(warns)@ + seg_warns(seg@, line) =~= old(warns)@.push(
                        Warning::BadSegment { line },
                    ));
                }
            },
        }
    } else {
        match parse_port(seg) {
            Some(p) => {
                out.push(p);
                proof {
                    assert(old(out)@ + seg_ports(seg@) =~= old(out)@.push(p));
                    assert(old(warns)@ + seg_warns(seg@, line) =~= old(warns)@);
                }
            },
            None => {
                warns.push(Warning::BadSegment { line });
                proof {
                    assert(old(out)@ + seg_ports(seg@) =~= old(out)@);
                    assert(old(warns)@ + seg_warns(seg@, line) =~= old(warns)@.push(
                        Warning::BadSegment { line },
                    ));
                }
            },
        }
    }
}

/// All ports of a comma-separated selector, in selector order.
pub open spec fn sel_ports(sel: Seq<u8>) -> Seq<u16>
    decreases sel.len(),
{
    let i = first_sep(sel, 44);
    if i >= sel.len() {
        seg_ports(sel)
    } else {
        seg_ports(sel.take(i as int)) + sel_ports(sel.skip(i as int + 1))
    }
}

pub open spec fn sel_warns(sel: Seq<u8>, line: usize) -> Seq<Warning>
    decreases sel.len(),
{
    let i = first_sep(sel, 44);
    if i >= sel.len() {
        seg_warns(sel, line)
    } else {
        seg_warns(sel.take(i as int), line) + sel_warns(sel.skip(i as int + 1), line)
    }
}

/// Decodes a whole selector field, appending warnings for bad segments.
pub fn selector_to_ports(sel: &Vec<u8>, line: usize, warns: &mut Vec<Warning>) -> (r: Vec<u16>)
    ensures
        r@ == sel_ports(sel@),
        final(warns)@ == old(warns)@ + sel_warns(sel@, line),
{
    let mut out: Vec<u16> = Vec::new();
    let mut pos: usize = 0;
    let mut fin: bool = false;
    proof {
        assert(sel@.skip(0) =~= sel@);
        assert(out@ + sel_ports(sel@) =~= sel_ports(sel@));
        assert(warns@ + sel_warns(sel@, line) =~= old(warns)@ + sel_warns(sel@, line));
    }
    while !fin
        invariant
            pos <= sel@.len(),
            !fin ==> out@ + sel_ports(sel@.skip(pos as int)) =~= sel_ports(sel@),
            !fin ==> warns@ + sel_warns(sel@.skip(pos as int), line) =~= old(warns)@ + sel_warns(
                sel@,
                line,
            ),
            fin ==> out@ =~= sel_ports(sel@),
            fin ==> warns@ =~= old(warns)@ + sel_warns(sel@, line),
        decreases sel@.len() - pos + (if fin { 0int } else { 1 }),
    {
        let ghost rem = sel@.skip(pos as int);
        let j = find_from(sel, pos, 44);
        proof {
            lemma_first_sep_bounds(rem, 44);
        }
        let seg = subvec(sel, pos, j);
        proof {
            assert(seg@ =~= rem.take(j - pos));
        }
        let ghost out0 = out@;
        let ghost w0 = warns@;
        do_segment(&seg, line, &mut out, warns);
        if j == sel.len() {
            proof {
                assert(seg@ =~= rem);
                assert(sel_ports(rem) == seg_ports(rem));
                assert(sel_warns(rem, line) == seg_warns(rem, line));
                assert(out@ =~= out0 + seg_ports(rem));
                assert(out@ =~= sel_ports(sel@));
                assert(warns@ =~= old(warns)@ + sel_warns(sel@, line));
            }
            fin = true;
        } else {
            proof {
                assert(rem.skip(j - pos + 1) =~= sel@.skip(j + 1));
                assert(sel_ports(rem) == seg_ports(rem.take(j - pos)) + sel_ports(
                    sel@.skip(j + 1),
                ));
                assert(sel_warns(rem, line) == seg_warns(rem.take(j - pos), line) + sel_warns(
                    sel@.skip(j + 1),
                    line,
                ));
                assert(out@ + sel_ports(sel@.skip(j + 1)) =~= out0 + sel_ports(rem));
                assert(warns@ + sel_warns(sel@.skip(j + 1), line) =~= w0 + sel_warns(rem, line));
            }
            pos = j + 1;
        }
    }
    out
}

/// The protocol field of an ICMP line.
pub open spec fn is_icmp(s: Seq<u8>) -> bool {
    s.len() == 4 && s[0] == 105 && s[1] == 99 && s[2] == 109 && s[3] == 112
}

/// Whether the field spells `icmp`.
pub fn icmp_field(v: &Vec<u8>) -> (r: bool)
    ensures
        r == is_icmp(v@),
{
    v.len() == 4 && v[0] == 105 && v[1] == 99 && v[2] == 109 && v[3] == 112
}

/// The port set one normalized line yields: empty for ICMP, `None` for a
/// malformed line, the selector's ports otherwise.
pub open spec fn line_ports(text: Seq<u8>) -> Option<Seq<u16>> {
    let parts = split3(text);
    if is_icmp(parts[0]) {
        Some(Seq::empty())
    } else if parts.len() < 3 {
        None
    } else {
        Some(sel_ports(parts[1]))
    }
}

pub open spec fn line_port_warns(line: usize, text: Seq<u8>) -> Seq<Warning> {
    let parts = split3(text);
    if is_icmp(parts[0]) {
        Seq::empty()
    } else if parts.len() < 3 {
        seq![Warning::Malformed { line }]
    } else {
        sel_warns(parts[1], line)
    }
}

pub open spec fn pmap_view(s: Seq<(usize, Vec<u16>)>) -> Seq<(usize, Seq<u16>)> {
    s.map_values(|p: (usize, Vec<u16>)| (p.0, p.1@))
}

/// The port-set mapping over all normalized lines, in line order.
pub open spec fn ports_map_of(ls: Seq<(usize, Seq<u8>)>) -> Seq<(usize, Seq<u16>)>
    decreases ls.len(),
{
    if ls.len() == 0 {
        Seq::empty()
    } else {
        let prev = ports_map_of(ls.drop_last());
        match line_ports(ls.last().1) {
            Some(ps) => prev.push((ls.last().0, ps)),
            None => prev,
        }
    }
}

pub open spec fn ports_warns_of(ls: Seq<(usize, Seq<u8>)>) -> Seq<Warning>
    decreases ls.len(),
{
    if ls.len() == 0 {
        Seq::empty()
    } else {
        ports_warns_of(ls.drop_last()) + line_port_warns(ls.last().0, ls.last().1)
    }
}

/// Derives the port set of every line of the normalized file: an empty set
/// for ICMP lines, the expanded selector otherwise; malformed lines are
/// skipped with a warning.
pub fn ports_v(fp_map: &Vec<(usize, Vec<u8>)>) -> (r: (Vec<(usize, Vec<u16>)>, Vec<Warning>))
    ensures
        pmap_view(r.0@) == ports_map_of(pairs_view(fp_map@)),
        r.1@ == ports_warns_of(pairs_view(fp_map@)),
{
    let mut out: Vec<(usize, Vec<u16>)> = Vec::new();
    let mut warns: Vec<Warning> = Vec::new();
    let ghost fv = pairs_view(fp_map@);
    let mut idx: usize = 0;
    while idx < fp_map.len()
        invariant
            idx <= fp_map@.len(),
            fv == pairs_view(fp_map@),
            pmap_view(out@) =~= ports_map_of(fv.take(idx as int)),
            warns@ =~= ports_warns_of(fv.take(idx as int)),
        decreases fp_map@.len() - idx,
    {
        let line = fp_map[idx].0;
        let parts = split_fields(&fp_map[idx].1);
        let ghost pv = split3(fv[idx as int].1);
        proof {
            assert(fv[idx as int] == (fp_map@[idx as int].0, fp_map@[idx as int].1@));
            assert(fv.take(idx + 1).drop_last() =~= fv.take(idx as int));
            assert(fv.take(idx + 1).last() == fv[idx as int]);
            assert(lines_view(parts@)[0] == parts@[0]@);
        }
        let ghost out0 = out@;
        let ghost w0 = warns@;
        if icmp_field(&parts[0]) {
            let empty_ports: Vec<u16> = Vec::new();
            out.push((line, empty_ports));
            proof {
                assert(pmap_view(out@) =~= pmap_view(out0).push((line, Seq::<u16>::empty())));
                assert(warns@ =~= w0 + line_port_warns(line, fv[idx as int].1));
            }
        } else if parts.len() < 3 {
            warns.push(Warning::Malformed { line });
            proof {
                assert(warns@ =~= w0 + line_port_warns(line, fv[idx as int].1));
            }
        } else {
            proof {
                assert(lines_view(parts@)[1] == parts@[1]@);
            }
            let ps = selector_to_ports(&parts[1], line, &mut warns);
            out.push((line, ps));
            proof {
                assert(pmap_view(out@) =~= pmap_view(out0).push((line, sel_ports(pv[1]))));
                assert(warns@ =~= w0 + line_port_warns(line, fv[idx as int].1));
            }
        }
        idx = idx + 1;
    }
    proof {
        assert(fv.take(fp_map@.len() as int) =~= fv);
    }
    (out, warns)
}

} // verus!
