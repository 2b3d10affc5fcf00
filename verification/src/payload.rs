//! Payload decoder: a payload-text field is a mix of literal ASCII bytes
//! and `\xHH` two-hex-digit escapes, scanned left to right with no
//! nesting. The inverse encoder emits the same notation, and decoding what
//! it emits returns the original bytes exactly.

use vstd::prelude::*;

use crate::fields::{split3, split_fields};
use crate::lines::{lines_view, pairs_view};
use crate::ports::{is_digit, is_icmp, icmp_field};
use crate::warn::Warning;

verus! {

pub open spec fn is_hex(b: u8) -> bool {
    is_digit(b) || (97 <= b <= 102) || (65 <= b <= 70)
}

/// Value of one hex digit (either case).
pub open spec fn hex_val(b: u8) -> u8 {
    if is_digit(b) {
        (b - 48) as u8
    } else if 97 <= b <= 102 {
        (b - 87) as u8
    } else {
        (b - 55) as u8
    }
}

fn hex_probe(b: u8) -> (r: bool)
    ensures
        r == is_hex(b),
{
    (48 <= b && b <= 57) || (97 <= b && b <= 102) || (65 <= b && b <= 70)
}

fn hex_digit_val(b: u8) -> (r: u8)
    requires
        is_hex(b),
    ensures
        r == hex_val(b),
{
    if 48 <= b && b <= 57 {
        b - 48
    } else if 97 <= b && b <= 102 {
        b - 87
    } else {
        b - 55
    }
}

/// The bytes a payload text decodes to: a `\xHH` escape yields one byte
/// (none when `HH` is not hex); any other byte stands for itself.
pub open spec fn decode_bytes(s: Seq<u8>) -> Seq<u8>
    decreases s.len(),
{
    if s.len() == 0 {
        Seq::empty()
    } else if s[0] == 92 && s.len() >= 4 && s[1] == 120 {
        if is_hex(s[2]) && is_hex(s[3]) {
            seq![(hex_val(s[2]) * 16 + hex_val(s[3])) as u8] + decode_bytes(s.skip(4))
        } else {
            decode_bytes(s.skip(4))
        }
    } else {
        seq![s[0]] + decode_bytes(s.skip(1))
    }
}

/// Positions (relative to `base`) of escapes whose two characters are not
/// hex digits.
pub open spec fn decode_warns(s: Seq<u8>, base: usize) -> Seq<usize>
    decreases s.len(),
{
    if s.len() == 0 {
        Seq::empty()
    } else if s[0] == 92 && s.len() >= 4 && s[1] == 120 {
        if is_hex(s[2]) && is_hex(s[3]) {
            decode_warns(s.skip(4), (base + 4) as usize)
        } else {
            seq![base] + decode_warns(s.skip(4), (base + 4) as usize)
        }
    } else {
        decode_warns(s.skip(1), (base + 1) as usize)
    }
}

/// Decodes a payload text into raw bytes, reporting the position of every
/// invalid escape.
pub fn parser(payload: &Vec<u8>) -> (r: (Vec<u8>, Vec<usize>))
    ensures
        r.0@ == decode_bytes(payload@),
        r.1@ == decode_warns(payload@, 0),
{
    let mut out: Vec<u8> = Vec::new();
    let mut warns: Vec<usize> = Vec::new();
    let mut idx: usize = 0;
    proof {
        assert(payload@.skip(0) =~= payload@);
        assert(out@ + decode_bytes(payload@) =~= decode_bytes(payload@));
        assert(warns@ + decode_warns(payload@, 0) =~= decode_warns(payload@, 0));
    }
    while idx < payload.len()
        invariant
            idx <= payload@.len(),
            out@ + decode_bytes(payload@.skip(idx as int)) =~= decode_bytes(payload@),
            warns@ + decode_warns(payload@.skip(idx as int), idx) =~= decode_warns(payload@, 0),
        decreases payload@.len() - idx,
    {
        let ghost rem = payload@.skip(idx as int);
        let ghost out0 = out@;
        let ghost w0 = warns@;
        let b = payload[idx];
        proof {
            assert(rem[0] == payload@[idx as int]);
        }
        if b == 92 && payload.len() - idx > 3 && payload[idx + 1] == 120 {
            proof {
                assert(rem.len() >= 4);
                assert(rem[1] == payload@[idx as int + 1]);
                assert(rem[2] == payload@[idx as int + 2]);
                assert(rem[3] == payload@[idx as int + 3]);
                assert(rem.skip(4) =~= payload@.skip(idx as int + 4));
            }
            let h1 = payload[idx + 2];
            let h2 = payload[idx + 3];
            if hex_probe(h1) && hex_probe(h2) {
                let v1 = hex_digit_val(h1);
                let v2 = hex_digit_val(h2);
                out.push(v1 * 16 + v2);
                proof {
                    assert(out@ + decode_bytes(payload@.skip(idx as int + 4)) =~= out0
                        + decode_bytes(rem));
                    assert(warns@ + decode_warns(payload@.skip(idx as int + 4), (idx + 4) as usize)
                        =~= w0 + decode_warns(rem, idx));
                }
            } else {
                warns.push(idx);
                proof {
                    assert(out@ + decode_bytes(payload@.skip(idx as int + 4)) =~= out0
                        + decode_bytes(rem));
                    assert(warns@ + decode_warns(payload@.skip(idx as int + 4), (idx + 4) as usize)
                        =~= w0 + decode_warns(rem, idx));
                }
            }
            idx = idx + 4;
        } else {
            out.push(b);
            proof {
                assert(rem.skip(1) =~= payload@.skip(idx as int + 1));
                assert(out@ + decode_bytes(payload@.skip(idx as int + 1)) =~= out0 + decode_bytes(
                    rem,
                ));
                assert(warns@ + decode_warns(payload@.skip(idx as int + 1), (idx + 1) as usize)
                    =~= w0 + decode_warns(rem, idx));
            }
            idx = idx + 1;
        }
    }
    proof {
        assert(payload@.skip(payload@.len() as int) =~= Seq::<u8>::empty());
        assert(out@ + decode_bytes(payload@.skip(payload@.len() as int)) =~= out@);
        assert(warns@ + decode_warns(payload@.skip(payload@.len() as int), idx) =~= warns@);
    }
    (out, warns)
}

/// The lowercase hex digit for a value below 16.
pub open spec fn hex_digit(x: u8) -> u8 {
    if x < 10 {
        (48 + x) as u8
    } else {
        (87 + x) as u8
    }
}

/// The notation one byte encodes to: printable ASCII other than `\` stays
/// literal, everything else becomes a `\xHH` escape.
pub open spec fn enc_byte(b: u8) -> Seq<u8> {
    if 32 <= b <= 126 && b != 92 {
        seq![b]
    } else {
        seq![92u8, 120u8, hex_digit(b / 16), hex_digit(b % 16)]
    }
}

/// The escaped notation of a whole byte sequence.
pub open spec fn encode_bytes(bs: Seq<u8>) -> Seq<u8>
    decreases bs.len(),
{
    if bs.len() == 0 {
        Seq::empty()
    } else {
        enc_byte(bs[0]) + encode_bytes(bs.skip(1))
    }
}

/// Encodes raw bytes back into `\xHH`/literal payload notation.
pub fn encode_payload(bytes: &Vec<u8>) -> (r: Vec<u8>)
    ensures
        r@ == encode_bytes(bytes@),
{
    let mut out: Vec<u8> = Vec::new();
    let mut i: usize = 0;
    proof {
        assert(bytes@.skip(0) =~= bytes@);
        assert(out@ + encode_bytes(bytes@) =~= encode_bytes(bytes@));
    }
    while i < bytes.len()
        invariant
            i <= bytes@.len(),
            out@ + encode_bytes(bytes@.skip(i as int)) =~= encode_bytes(bytes@),
        decreases bytes@.len() - i,
    {
        let ghost rem = bytes@.skip(i as int);
        let ghost out0 = out@;
        let b = bytes[i];
        proof {
            assert(rem[0] == bytes@[i as int]);
            assert(rem.skip(1) =~= bytes@.skip(i as int + 1));
        }
        if 32 <= b && b <= 126 && b != 92 {
            out.push(b);
        } else {
            out.push(92);
            out.push(120);
            let hi = b / 16;
            let lo = b % 16;
            if hi < 10 {
                out.push(48 + hi);
            } else {
                out.push(87 + hi);
            }
            if lo < 10 {
                out.push(48 + lo);
            } else {
                out.push(87 + lo);
            }
        }
        proof {
            assert(out@ =~= out0 + enc_byte(rem[0]));
            assert(out@ + encode_bytes(bytes@.skip(i as int + 1)) =~= out0 + encode_bytes(rem));
        }
        i = i + 1;
    }
    proof {
        assert(bytes@.skip(bytes@.len() as int) =~= Seq::<u8>::empty());
        assert(out@ + encode_bytes(bytes@.skip(bytes@.len() as int)) =~= out@);
    }
    out
}

proof fn lemma_hex_digit_val(x: u8)
    requires
        x < 16,
    ensures
        is_hex(hex_digit(x)),
        hex_val(hex_digit(x)) == x,
{
}

/// Decoding is the inverse of encoding: re-decoding the emitted
/// `\xHH`/literal notation reproduces the original bytes exactly, with no
/// invalid-escape warning at any position.
pub proof fn lemma_encode_decode_roundtrip(bs: Seq<u8>, base: usize)
    ensures
        decode_bytes(encode_bytes(bs)) == bs,
        decode_warns(encode_bytes(bs), base) == Seq::<usize>::empty(),
    decreases bs.len(),
{
    if bs.len() == 0 {
        assert(decode_bytes(encode_bytes(bs)) =~= bs);
    } else {
        let b = bs[0];
        let e = encode_bytes(bs);
        let rest = encode_bytes(bs.skip(1));
        lemma_encode_decode_roundtrip(bs.skip(1), (base + enc_byte(b).len()) as usize);
        if 32 <= b <= 126 && b != 92 {
            assert(e =~= seq![b] + rest);
            assert(e[0] == b && b != 92);
            assert(e.skip(1) =~= rest);
            assert(decode_bytes(e) =~= seq![b] + bs.skip(1));
            assert(decode_bytes(e) =~= bs);
        } else {
            let hi = (b / 16) as u8;
            let lo = (b % 16) as u8;
            assert(hi < 16 && lo < 16) by {
                vstd::arithmetic::div_mod::lemma_fundamental_div_mod(b as int, 16);
            }
            lemma_hex_digit_val(hi);
            lemma_hex_digit_val(lo);
            assert(e =~= seq![92u8, 120u8, hex_digit(hi), hex_digit(lo)] + rest);
            assert(e[0] == 92 && e[1] == 120 && e[2] == hex_digit(hi) && e[3] == hex_digit(lo));
            assert(e.len() >= 4);
            assert(hex_val(e[2]) * 16 + hex_val(e[3]) == b) by {
                vstd::arithmetic::div_mod::lemma_fundamental_div_mod(b as int, 16);
            }
            assert(e.skip(4) =~= rest);
            assert(decode_bytes(e) =~= seq![b] + bs.skip(1));
            assert(decode_bytes(e) =~= bs);
        }
    }
}

/// The payload text one normalized line yields: the second field for ICMP
/// lines, the third for all others; `None` when the line has no such
/// field.
pub open spec fn line_payload(text: Seq<u8>) -> Option<Seq<u8>> {
    let parts = split3(text);
    if parts.len() < 2 {
        None
    } else if is_icmp(parts[0]) {
        Some(decode_bytes(parts[1]))
    } else if parts.len() < 3 {
        None
    } else {
        Some(decode_bytes(parts[2]))
    }
}

/// Invalid-escape positions of a field, as warnings tied to a line.
pub open spec fn hex_warns(f: Seq<u8>, line: usize) -> Seq<Warning> {
    decode_warns(f, 0).map_values(|p: usize| Warning::BadHex { line, pos: p })
}

pub open spec fn line_payload_warns(line: usize, text: Seq<u8>) -> Seq<Warning> {
    let parts = split3(text);
    if parts.len() < 2 {
        seq![Warning::Malformed { line }]
    } else if is_icmp(parts[0]) {
        hex_warns(parts[1], line)
    } else if parts.len() < 3 {
        Seq::empty()
    } else {
        hex_warns(parts[2], line)
    }
}

/// The payload mapping over all normalized lines, in line order.
pub open spec fn payloads_map_of(ls: Seq<(usize, Seq<u8>)>) -> Seq<(usize, Seq<u8>)>
    decreases ls.len(),
{
    if ls.len() == 0 {
        Seq::empty()
    } else {
        let prev = payloads_map_of(ls.drop_last());
        match line_payload(ls.last().1) {
            Some(p) => prev.push((ls.last().0, p)),
            None => prev,
        }
    }
}

pub open spec fn payloads_warns_of(ls: Seq<(usize, Seq<u8>)>) -> Seq<Warning>
    decreases ls.len(),
{
    if ls.len() == 0 {
        Seq::empty()
    } else {
        payloads_warns_of(ls.drop_last()) + line_payload_warns(ls.last().0, ls.last().1)
    }
}

/// Turns a list of escape positions into warnings for one line.
fn push_hex_warns(warns: &mut Vec<Warning>, poss: &Vec<usize>, line: usize)
    ensures
        final(warns)@ == old(warns)@ + poss@.map_values(
            |p: usize| Warning::BadHex { line, pos: p },
        ),
{
    let ghost f = |p: usize| Warning::BadHex { line, pos: p };
    let mut k: usize = 0;
    proof {
        assert(warns@ =~= old(warns)@ + poss@.take(0).map_values(f));
    }
    while k < poss.len()
        invariant
            k <= poss@.len(),
            warns@ =~= old(warns)@ + poss@.take(k as int).map_values(f),
            f == (|p: usize| Warning::BadHex { line, pos: p }),
        decreases poss@.len() - k,
    {
        warns.push(Warning::BadHex { line, pos: poss[k] });
        proof {
            assert(poss@.take(k + 1).drop_last() =~= poss@.take(k as int));
            assert(poss@.take(k + 1).map_values(f) =~= poss@.take(k as int).map_values(f).push(
                f(poss@[k as int]),
            ));
        }
        k = k + 1;
    }
    proof {
        assert(poss@.take(poss@.len() as int) =~= poss@);
    }
}

/// Derives the payload bytes of every line of the normalized file; lines
/// with too few fields are skipped, with a warning when even the payload
/// slot is missing.
pub fn payloads_v(fp_map: &Vec<(usize, Vec<u8>)>) -> (r: (Vec<(usize, Vec<u8>)>, Vec<Warning>))
    ensures
        pairs_view(r.0@) == payloads_map_of(pairs_view(fp_map@)),
        r.1@ == payloads_warns_of(pairs_view(fp_map@)),
{
    let mut out: Vec<(usize, Vec<u8>)> = Vec::new();
    let mut warns: Vec<Warning> = Vec::new();
    let ghost fv = pairs_view(fp_map@);
    let mut idx: usize = 0;
    while idx < fp_map.len()
        invariant
            idx <= fp_map@.len(),
            fv == pairs_view(fp_map@),
            pairs_view(out@) =~= payloads_map_of(fv.take(idx as int)),
            warns@ =~= payloads_warns_of(fv.take(idx as int)),
        decreases fp_map@.len() - idx,
    {
        let line = fp_map[idx].0;
        let parts = split_fields(&fp_map[idx].1);
        let ghost pv = split3(fv[idx as int].1);
        proof {
            assert(fv[idx as int] == (fp_map@[idx as int].0, fp_map@[idx as int].1@));
            assert(fv.take(idx + 1).drop_last() =~= fv.take(idx as int));
            assert(fv.take(idx + 1).last() == fv[idx as int]);
        }
        let ghost out0 = out@;
        let ghost w0 = warns@;
        if parts.len() < 2 {
            warns.push(Warning::Malformed { line });
            proof {
                assert(warns@ =~= w0 + line_payload_warns(line, fv[idx as int].1));
            }
        } else {
            proof {
                assert(lines_view(parts@)[0] == parts@[0]@);
                assert(lines_view(parts@)[1] == parts@[1]@);
            }
            if icmp_field(&parts[0]) {
                let (bytes, poss) = parser(&parts[1]);
                out.push((line, bytes));
                push_hex_warns(&mut warns, &poss, line);
                proof {
                    assert(pairs_view(out@) =~= pairs_view(out0).push(
                        (line, decode_bytes(pv[1])),
                    ));
                    assert(warns@ =~= w0 + line_payload_warns(line, fv[idx as int].1));
                }
            } else if parts.len() < 3 {
                // a malformed non-ICMP line: the port derivation already
                // reported it, so it is skipped here without a warning
                proof {
                    assert(warns@ =~= w0 + line_payload_warns(line, fv[idx as int].1));
                }
            } else {
                proof {
                    assert(lines_view(parts@)[2] == parts@[2]@);
                }
                let (bytes, poss) = parser(&parts[2]);
                out.push((line, bytes));
                push_hex_warns(&mut warns, &poss, line);
                proof {
                    assert(pairs_view(out@) =~= pairs_view(out0).push(
                        (line, decode_bytes(pv[2])),
                    ));
                    assert(warns@ =~= w0 + line_payload_warns(line, fv[idx as int].1));
                }
            }
        }
        idx = idx + 1;
    }
    proof {
        assert(fv.take(fp_map@.len() as int) =~= fv);
    }
    (out, warns)
}

} // verus!
