//! Emitter: serializes the final table as compilable source text, one
//! `map.insert` line per entry in the table's own order, so the emitted
//! representation matches in-memory iteration exactly.

use vstd::prelude::*;
use vstd::string::*;

use crate::table::tview;

verus! {

/// Decimal digits of a non-negative number, most significant first.
pub open spec fn dec_bytes(n: int) -> Seq<u8>
    decreases n,
{
    if n < 10 {
        seq![(48 + n) as u8]
    } else {
        dec_bytes(n / 10) + seq![(48 + n % 10) as u8]
    }
}

/// Appends the decimal digits of `n`.
fn push_dec(out: &mut Vec<u8>, n: u16)
    ensures
        final(out)@ == old(out)@ + dec_bytes(n as int),
    decreases n,
{
    if n < 10 {
        out.push(48 + n as u8);
        proof {
            assert(old(out)@ + dec_bytes(n as int) =~= old(out)@.push((48 + n) as u8));
        }
    } else {
        push_dec(out, n / 10);
        out.push(48 + (n % 10) as u8);
        proof {
            assert(old(out)@ + dec_bytes(n as int) =~= (old(out)@ + dec_bytes(n as int / 10)).push(
                (48 + n as int % 10) as u8,
            ));
        }
    }
}

/// The `", "` separator between numbers of one list.
pub open spec fn sep_bytes() -> Seq<u8> {
    (", ").spec_bytes()
}

/// Ports joined with `", "`, each in decimal.
pub open spec fn join16(s: Seq<u16>) -> Seq<u8>
    decreases s.len(),
{
    if s.len() == 0 {
        Seq::empty()
    } else if s.len() == 1 {
        dec_bytes(s[0] as int)
    } else {
        join16(s.drop_last()) + sep_bytes() + dec_bytes(s.last() as int)
    }
}

/// Payload bytes joined with `", "`, each in decimal.
pub open spec fn join8(s: Seq<u8>) -> Seq<u8>
    decreases s.len(),
{
    if s.len() == 0 {
        Seq::empty()
    } else if s.len() == 1 {
        dec_bytes(s[0] as int)
    } else {
        join8(s.drop_last()) + sep_bytes() + dec_bytes(s.last() as int)
    }
}

fn push_sep(out: &mut Vec<u8>)
    ensures
        final(out)@ == old(out)@ + sep_bytes(),
{
    let mut s = (", ").as_bytes_vec();
    out.append(&mut s);
}

fn push_join16(out: &mut Vec<u8>, v: &Vec<u16>)
    ensures
        final(out)@ == old(out)@ + join16(v@),
{
    let mut i: usize = 0;
    proof {
        assert(v@.take(0) =~= Seq::<u16>::empty());
        assert(old(out)@ + join16(v@.take(0)) =~= old(out)@);
    }
    while i < v.len()
        invariant
            i <= v@.len(),
            out@ == old(out)@ + join16(v@.take(i as int)),
        decreases v@.len() - i,
    {
        proof {
            assert(v@.take(i + 1).drop_last() =~= v@.take(i as int));
            assert(v@.take(i + 1).last() == v@[i as int]);
        }
        if i > 0 {
            push_sep(out);
        }
        push_dec(out, v[i]);
        proof {
            if i == 0 {
                assert(v@.take(1).len() == 1);
                assert(v@.take(1)[0] == v@[0]);
            }
        }
        i = i + 1;
    }
    proof {
        assert(v@.take(v@.len() as int) =~= v@);
    }
}

fn push_join8(out: &mut Vec<u8>, v: &Vec<u8>)
    ensures
        final(out)@ == old(out)@ + join8(v@),
{
    let mut i: usize = 0;
    proof {
        assert(v@.take(0) =~= Seq::<u8>::empty());
        assert(old(out)@ + join8(v@.take(0)) =~= old(out)@);
    }
    while i < v.len()
        invariant
            i <= v@.len(),
            out@ == old(out)@ + join8(v@.take(i as int)),
        decreases v@.len() - i,
    {
        proof {
            assert(v@.take(i + 1).drop_last() =~= v@.take(i as int));
            assert(v@.take(i + 1).last() == v@[i as int]);
        }
        if i > 0 {
            push_sep(out);
        }
        push_dec(out, v[i] as u16);
        proof {
            if i == 0 {
                assert(v@.take(1).len() == 1);
                assert(v@.take(1)[0] == v@[0]);
            }
        }
        i = i + 1;
    }
    proof {
        assert(v@.take(v@.len() as int) =~= v@);
    }
}

/// The fixed text above the entries of the generated source.
pub open spec fn header_bytes() -> Seq<u8> {
    (
    "use std::collections::BTreeMap;\nuse once_cell::sync::Lazy;\n\nfn generated_data() -> BTreeMap<Vec<u16>, Vec<u8>> {\n    let mut map = BTreeMap::new();\n").spec_bytes()
}

/// The fixed text below the entries: closes the builder and declares the
/// lazily initialized table with its accessor.
pub open spec fn footer_bytes() -> Seq<u8> {
    (
    "    map\n}\n\npub static PARSED_DATA: Lazy<BTreeMap<Vec<u16>, Vec<u8>>> = Lazy::new(generated_data);\npub fn get_parsed_data() -> &'static BTreeMap<Vec<u16>, Vec<u8>> {\n    &PARSED_DATA\n}\n").spec_bytes()
}

/// One emitted entry: an insert of the port list and payload list.
pub open spec fn entry_bytes(e: (Seq<u16>, Seq<u8>)) -> Seq<u8> {
    ("    map.insert(vec![").spec_bytes() + join16(e.0) + ("], vec![").spec_bytes() + join8(e.1)
        + ("]);\n").spec_bytes()
}

/// All entries in table order.
pub open spec fn entries_bytes(s: Seq<(Seq<u16>, Seq<u8>)>) -> Seq<u8>
    decreases s.len(),
{
    if s.len() == 0 {
        Seq::empty()
    } else {
        entries_bytes(s.drop_last()) + entry_bytes(s.last())
    }
}

/// The whole generated source.
pub open spec fn emitted(s: Seq<(Seq<u16>, Seq<u8>)>) -> Seq<u8> {
    header_bytes() + entries_bytes(s) + footer_bytes()
}

/// Serializes the table into the source text of a module holding the
/// reconstructed table behind a compute-once accessor, one entry per
/// table entry, in table order.
pub fn generate_code(table: &Vec<(Vec<u16>, Vec<u8>)>) -> (r: Vec<u8>)
    ensures
        r@ == emitted(tview(table@)),
{
    let ghost tv = tview(table@);
    let mut out: Vec<u8> = (
    "use std::collections::BTreeMap;\nuse once_cell::sync::Lazy;\n\nfn generated_data() -> BTreeMap<Vec<u16>, Vec<u8>> {\n    let mut map = BTreeMap::new();\n").as_bytes_vec();
    let mut i: usize = 0;
    proof {
        assert(tv.take(0) =~= Seq::<(Seq<u16>, Seq<u8>)>::empty());
        assert(out@ + entries_bytes(tv.take(0)) =~= out@);
        assert(out@ == header_bytes());
    }
    while i < table.len()
        invariant
            i <= table@.len(),
            tv == tview(table@),
            out@ == header_bytes() + entries_bytes(tv.take(i as int)),
        decreases table@.len() - i,
    {
        proof {
            assert(tv.take(i + 1).drop_last() =~= tv.take(i as int));
            assert(tv.take(i + 1).last() == tv[i as int]);
            assert(tv[i as int] == (table@[i as int].0@, table@[i as int].1@));
        }
        let mut piece = ("    map.insert(vec![").as_bytes_vec();
        out.append(&mut piece);
        push_join16(&mut out, &table[i].0);
        let mut piece2 = ("], vec![").as_bytes_vec();
        out.append(&mut piece2);
        push_join8(&mut out, &table[i].1);
        let mut piece3 = ("]);\n").as_bytes_vec();
        out.append(&mut piece3);
        i = i + 1;
    }
    proof {
        assert(tv.take(table@.len() as int) =~= tv);
    }
    let mut foot = (
    "    map\n}\n\npub static PARSED_DATA: Lazy<BTreeMap<Vec<u16>, Vec<u8>>> = Lazy::new(generated_data);\npub fn get_parsed_data() -> &'static BTreeMap<Vec<u16>, Vec<u8>> {\n    &PARSED_DATA\n}\n").as_bytes_vec();
    out.append(&mut foot);
    out
}

} // verus!
