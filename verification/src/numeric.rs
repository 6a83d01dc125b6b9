//! The numeric codec: a delta and one number per record.
//!
//! The header byte holds, from its low end, three bits for the number of
//! delta bytes (0 to 7), two bits for the kind of payload (0 tiny integer,
//! 1 float, 2 positive integer, 3 negative integer) and three bits whose
//! meaning depends on the kind: the value itself for a tiny integer, the
//! number of payload bytes less one for an integer, and for a float one bit
//! each for infinite (1), negative (2) and double width (4).

use vstd::prelude::*;
use crate::error::{DecodeError, EncodeError};
use crate::fixed::{
    byte_width, le_bytes, lemma_le_roundtrip, lemma_pow256_values, lemma_take_le, pow256, read_le,
    take_le, width_of, write_le,
};
use crate::qint::{lemma_part_in_place, lemma_parts};

verus! {

/// A number as the codec sees it: sign and magnitude, with the magnitude
/// given as an integer or as the bits of an IEEE-754 number.
#[derive(Clone, Copy, Debug, PartialEq, Eq, Structural)]
#[allow(inconsistent_fields)]
pub enum NumericValue {
    /// A whole number whose magnitude fits 64 bits.
    Int { negative: bool, magnitude: u64 },
    /// Positive or negative infinity.
    Infinite { negative: bool },
    /// A number that a 32-bit float holds exactly; `bits` are those of its
    /// magnitude.
    Single { negative: bool, bits: u32 },
    /// Any other number; `bits` are those of its magnitude as a 64-bit float.
    Double { negative: bool, bits: u64 },
}

/// The largest delta that the header can announce: seven bytes.
pub open spec fn max_numeric_delta() -> nat {
    0xFF_FFFF_FFFF_FFFF
}

/// The number of delta bytes: none for zero, else the fewest that hold it.
pub open spec fn delta_width(delta: nat) -> nat {
    if delta == 0 {
        0
    } else {
        byte_width(delta)
    }
}

/// Whether `v` is written as a tiny integer, inside the header.
pub open spec fn is_tiny(v: NumericValue) -> bool {
    v matches NumericValue::Int { magnitude, .. } && magnitude <= 7
}

/// The two kind bits of the header.
pub open spec fn numeric_kind(v: NumericValue) -> nat {
    match v {
        NumericValue::Int { negative, magnitude } => if magnitude <= 7 {
            0
        } else if negative {
            3
        } else {
            2
        },
        _ => 1,
    }
}

/// The three high bits of the header.
pub open spec fn numeric_selector(v: NumericValue) -> nat {
    match v {
        NumericValue::Int { negative, magnitude } => if magnitude <= 7 {
            magnitude as nat
        } else {
            (byte_width(magnitude as nat) - 1) as nat
        },
        NumericValue::Infinite { negative } => if negative {
            3
        } else {
            1
        },
        NumericValue::Single { negative, bits } => if negative {
            2
        } else {
            0
        },
        NumericValue::Double { negative, bits } => if negative {
            6
        } else {
            4
        },
    }
}

/// The header byte.
pub open spec fn numeric_header(delta: nat, v: NumericValue) -> u8 {
    (numeric_selector(v) * 32 + numeric_kind(v) * 8 + delta_width(delta)) as u8
}

/// The bytes of the number, which follow the delta.
pub open spec fn numeric_payload(v: NumericValue) -> Seq<u8> {
    match v {
        NumericValue::Int { negative, magnitude } => if magnitude <= 7 {
            Seq::empty()
        } else {
            le_bytes(magnitude as nat, byte_width(magnitude as nat))
        },
        NumericValue::Infinite { negative } => Seq::empty(),
        NumericValue::Single { negative, bits } => le_bytes(bits as nat, 4),
        NumericValue::Double { negative, bits } => le_bytes(bits as nat, 8),
    }
}

/// The encoding of one record.
pub open spec fn numeric_bytes(delta: nat, v: NumericValue) -> Seq<u8> {
    seq![numeric_header(delta, v)] + le_bytes(delta, delta_width(delta)) + numeric_payload(v)
}

/// What a reader makes of a written number: a tiny integer comes back
/// without its sign, every other number as it was.
pub open spec fn as_read(v: NumericValue) -> NumericValue {
    match v {
        NumericValue::Int { negative, magnitude } => if magnitude <= 7 {
            NumericValue::Int { negative: false, magnitude }
        } else {
            v
        },
        _ => v,
    }
}

/// Whether a header of kind float has a selector that no encoder emits:
/// infinite and double width at once.
pub open spec fn reserved_header(h: u8) -> bool {
    h / 8 % 4 == 1 && (h / 32 == 5 || h / 32 == 7)
}

/// What reading the number behind a header `h` gives, at `pos`.
pub open spec fn numeric_payload_parse(s: Seq<u8>, pos: int, h: u8) -> Result<
    (NumericValue, int),
    DecodeError,
> {
    let kind = h / 8 % 4;
    let sel = h / 32;
    if kind == 0 {
        Ok((NumericValue::Int { negative: false, magnitude: sel as u64 }, pos))
    } else if kind != 1 {
        match take_le(s, pos, (sel + 1) as nat) {
            Err(e) => Err(e),
            Ok((m, end)) => Ok(
                (NumericValue::Int { negative: kind == 3, magnitude: m as u64 }, end),
            ),
        }
    } else if sel % 2 == 1 {
        Ok((NumericValue::Infinite { negative: sel == 3 }, pos))
    } else if sel < 4 {
        match take_le(s, pos, 4) {
            Err(e) => Err(e),
            Ok((m, end)) => Ok((NumericValue::Single { negative: sel == 2, bits: m as u32 }, end)),
        }
    } else {
        match take_le(s, pos, 8) {
            Err(e) => Err(e),
            Ok((m, end)) => Ok((NumericValue::Double { negative: sel == 6, bits: m as u64 }, end)),
        }
    }
}

/// What reading one record at `pos` gives: the delta, the number and the
/// index behind the record.
pub open spec fn numeric_parse(s: Seq<u8>, pos: int) -> Result<
    (nat, NumericValue, int),
    DecodeError,
> {
    if pos < 0 || pos >= s.len() {
        Err(DecodeError::UnexpectedEof)
    } else if reserved_header(s[pos]) {
        Err(DecodeError::Malformed)
    } else {
        match take_le(s, pos + 1, (s[pos] % 8) as nat) {
            Err(e) => Err(e),
            Ok((d, p)) => match numeric_payload_parse(s, p, s[pos]) {
                Err(e) => Err(e),
                Ok((v, end)) => Ok((d, v, end)),
            },
        }
    }
}

/// Appends one record to `out` and returns the number of bytes written.
/// A delta of more than seven bytes is refused and `out` left as it was.
pub fn encode(out: &mut Vec<u8>, delta: u64, value: NumericValue) -> (r: Result<
    usize,
    EncodeError,
>)
    ensures
        delta > max_numeric_delta() ==> r == Err::<usize, EncodeError>(EncodeError::DeltaTooLarge)
            && final(out)@ == old(out)@,
        delta <= max_numeric_delta() ==> r == Ok::<usize, EncodeError>(
            numeric_bytes(delta as nat, value).len() as usize,
        ) && final(out)@ == old(out)@ + numeric_bytes(delta as nat, value) && numeric_bytes(
            delta as nat,
            value,
        ).len() <= 16,
{
    if delta > 0xFF_FFFF_FFFF_FFFF {
        return Err(EncodeError::DeltaTooLarge);
    }
    let dw: u8 = if delta == 0 {
        0
    } else {
        width_of(delta)
    };
    proof {
        lemma_pow256_values();
        lemma_le_roundtrip(delta as nat, dw as nat);
    }
    let written: usize = match value {
        NumericValue::Int { negative, magnitude } => {
            if magnitude <= 7 {
                out.push((magnitude as u8) * 32 + dw);
                write_le(out, delta, dw);
                1 + dw as usize
            } else {
                let w: u8 = width_of(magnitude);
                let kind: u8 = if negative {
                    3
                } else {
                    2
                };
                out.push((w - 1) * 32 + kind * 8 + dw);
                write_le(out, delta, dw);
                write_le(out, magnitude, w);
                proof {
                    lemma_le_roundtrip(magnitude as nat, w as nat);
                }
                1 + dw as usize + w as usize
            }
        },
        NumericValue::Infinite { negative } => {
            let sel: u8 = if negative {
                3
            } else {
                1
            };
            out.push(sel * 32 + 8 + dw);
            write_le(out, delta, dw);
            1 + dw as usize
        },
        NumericValue::Single { negative, bits } => {
            let sel: u8 = if negative {
                2
            } else {
                0
            };
            out.push(sel * 32 + 8 + dw);
            write_le(out, delta, dw);
            write_le(out, bits as u64, 4);
            proof {
                lemma_le_roundtrip(bits as nat, 4);
            }
            5 + dw as usize
        },
        NumericValue::Double { negative, bits } => {
            let sel: u8 = if negative {
                6
            } else {
                4
            };
            out.push(sel * 32 + 8 + dw);
            write_le(out, delta, dw);
            write_le(out, bits, 8);
            proof {
                lemma_le_roundtrip(bits as nat, 8);
            }
            9 + dw as usize
        },
    };
    assert(out@ =~= old(out)@ + numeric_bytes(delta as nat, value));
    Ok(written)
}

/// Reads one record at `pos`. Returns the delta, the number and the
/// position behind the record.
pub fn decode(src: &[u8], pos: usize) -> (r: Result<(u64, NumericValue, usize), DecodeError>)
    ensures
        match numeric_parse(src@, pos as int) {
            Ok((d, v, end)) => r == Ok::<(u64, NumericValue, usize), DecodeError>(
                (d as u64, v, end as usize),
            ) && d <= max_numeric_delta() && pos < end <= src@.len(),
            Err(e) => r == Err::<(u64, NumericValue, usize), DecodeError>(e),
        },
{
    if pos >= src.len() {
        return Err(DecodeError::UnexpectedEof);
    }
    let h: u8 = src[pos];
    let kind: u8 = h / 8 % 4;
    let sel: u8 = h / 32;
    if kind == 1 && (sel == 5 || sel == 7) {
        return Err(DecodeError::Malformed);
    }
    proof {
        lemma_pow256_values();
    }
    let (delta, p) = match read_le(src, pos + 1, h % 8) {
        Ok(x) => x,
        Err(e) => { return Err(e); },
    };
    if kind == 0 {
        Ok((delta, NumericValue::Int { negative: false, magnitude: sel as u64 }, p))
    } else if kind != 1 {
        match read_le(src, p, sel + 1) {
            Ok((m, end)) => Ok((delta, NumericValue::Int { negative: kind == 3, magnitude: m }, end)),
            Err(e) => Err(e),
        }
    } else if sel % 2 == 1 {
        Ok((delta, NumericValue::Infinite { negative: sel == 3 }, p))
    } else if sel < 4 {
        match read_le(src, p, 4) {
            Ok((m, end)) => Ok(
                (delta, NumericValue::Single { negative: sel == 2, bits: m as u32 }, end),
            ),
            Err(e) => Err(e),
        }
    } else {
        match read_le(src, p, 8) {
            Ok((m, end)) => Ok((delta, NumericValue::Double { negative: sel == 6, bits: m }, end)),
            Err(e) => Err(e),
        }
    }
}

proof fn lemma_numeric_header(delta: nat, v: NumericValue)
    requires
        delta <= max_numeric_delta(),
    ensures
        numeric_header(delta, v) % 8 == delta_width(delta),
        numeric_header(delta, v) / 8 % 4 == numeric_kind(v),
        numeric_header(delta, v) / 32 == numeric_selector(v),
        !reserved_header(numeric_header(delta, v)),
        delta < pow256(delta_width(delta)),
        le_bytes(delta, delta_width(delta)).len() == delta_width(delta),
{
    lemma_pow256_values();
    lemma_le_roundtrip(delta, delta_width(delta));
}

proof fn lemma_numeric_payload(v: NumericValue, s: Seq<u8>, pos: int, h: u8)
    requires
        0 <= pos,
        pos + numeric_payload(v).len() <= s.len(),
        s.subrange(pos, pos + numeric_payload(v).len()) == numeric_payload(v),
        h / 8 % 4 == numeric_kind(v),
        h / 32 == numeric_selector(v),
    ensures
        numeric_payload_parse(s, pos, h) == Ok::<(NumericValue, int), DecodeError>(
            (as_read(v), pos + numeric_payload(v).len()),
        ),
{
    lemma_pow256_values();
    match v {
        NumericValue::Int { negative, magnitude } => {
            if magnitude > 7 {
                let w = byte_width(magnitude as nat);
                lemma_le_roundtrip(magnitude as nat, w);
                lemma_take_le(s, pos, magnitude as nat, w);
            }
        },
        NumericValue::Infinite { negative } => {},
        NumericValue::Single { negative, bits } => {
            lemma_le_roundtrip(bits as nat, 4);
            lemma_take_le(s, pos, bits as nat, 4);
        },
        NumericValue::Double { negative, bits } => {
            lemma_le_roundtrip(bits as nat, 8);
            lemma_take_le(s, pos, bits as nat, 8);
        },
    }
}

/// Reading gives back what was written: where `s` holds at `pos` the
/// encoding of `delta` and `v`, the parse there yields the delta and the
/// number as a reader sees it, and the index behind the encoding, whatever
/// follows.
pub proof fn lemma_numeric_roundtrip(delta: nat, v: NumericValue, s: Seq<u8>, pos: int)
    requires
        delta <= max_numeric_delta(),
        0 <= pos,
        pos + numeric_bytes(delta, v).len() <= s.len(),
        s.subrange(pos, pos + numeric_bytes(delta, v).len()) == numeric_bytes(delta, v),
    ensures
        numeric_parse(s, pos) == Ok::<(nat, NumericValue, int), DecodeError>(
            (delta, as_read(v), pos + numeric_bytes(delta, v).len()),
        ),
        !(v matches NumericValue::Int { negative: true, magnitude } && magnitude <= 7)
            ==> as_read(v) == v,
{
    let h = numeric_header(delta, v);
    let x = le_bytes(delta, delta_width(delta));
    let y = numeric_payload(v);
    let e = numeric_bytes(delta, v);
    lemma_numeric_header(delta, v);
    lemma_parts(h, x, y, Seq::empty());
    assert(e =~= seq![h] + x + y + Seq::empty());
    assert(s[pos] == s.subrange(pos, pos + e.len())[0]);
    lemma_part_in_place(s, pos, e, 1, x);
    lemma_part_in_place(s, pos, e, 1 + (x.len() as int), y);
    lemma_take_le(s, pos + 1, delta, delta_width(delta));
    lemma_numeric_payload(v, s, pos + 1 + (x.len() as int), h);
}

/// The bytes behind the delta do not depend on the delta.
pub proof fn lemma_numeric_tail(delta: nat, v: NumericValue)
    ensures
        numeric_bytes(delta, v).skip(1 + delta_width(delta) as int) == numeric_payload(v),
{
    lemma_le_roundtrip(delta, delta_width(delta));
    assert(numeric_bytes(delta, v).skip(1 + delta_width(delta) as int) =~= numeric_payload(v));
}

} // verus!
