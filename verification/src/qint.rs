//! Packed groups of two or three 32-bit integers.
//!
//! A group starts with one header byte that gives each integer two bits:
//! the number of bytes it takes, less one. The integers follow in order,
//! each little-endian in the fewest bytes that hold it. Header bits that no
//! integer of the group owns are zero.

use vstd::prelude::*;
use crate::error::DecodeError;
use crate::fixed::{
    byte_width, le_bytes, lemma_le_roundtrip, lemma_pow256_values, lemma_take_le, pow256, read_le,
    take_le, width_of, write_le,
};

verus! {

/// The header byte of a group of two.
pub open spec fn header2(a: nat, b: nat) -> u8 {
    ((byte_width(b) - 1) * 4 + (byte_width(a) - 1)) as u8
}

/// The header byte of a group of three.
pub open spec fn header3(a: nat, b: nat, c: nat) -> u8 {
    ((byte_width(c) - 1) * 16 + (byte_width(b) - 1) * 4 + (byte_width(a) - 1)) as u8
}

/// What follows the first integer of a group: the later integers.
pub open spec fn qint2_tail(b: nat) -> Seq<u8> {
    le_bytes(b, byte_width(b))
}

/// What follows the first integer of a group of three.
pub open spec fn qint3_tail(b: nat, c: nat) -> Seq<u8> {
    le_bytes(b, byte_width(b)) + le_bytes(c, byte_width(c))
}

/// The encoding of the pair `(a, b)`.
pub open spec fn qint2_bytes(a: nat, b: nat) -> Seq<u8> {
    seq![header2(a, b)] + le_bytes(a, byte_width(a)) + qint2_tail(b)
}

/// The encoding of the triple `(a, b, c)`.
pub open spec fn qint3_bytes(a: nat, b: nat, c: nat) -> Seq<u8> {
    seq![header3(a, b, c)] + le_bytes(a, byte_width(a)) + qint3_tail(b, c)
}

/// What reading a group of two at `pos` gives: the two integers and the
/// index behind the group.
pub open spec fn qint2_parse(s: Seq<u8>, pos: int) -> Result<(nat, nat, int), DecodeError> {
    if pos < 0 || pos >= s.len() {
        Err(DecodeError::UnexpectedEof)
    } else if s[pos] >= 16 {
        Err(DecodeError::Malformed)
    } else {
        match take_le(s, pos + 1, (s[pos] % 4 + 1) as nat) {
            Err(e) => Err(e),
            Ok((a, p)) => match take_le(s, p, (s[pos] / 4 % 4 + 1) as nat) {
                Err(e) => Err(e),
                Ok((b, q)) => Ok((a, b, q)),
            },
        }
    }
}

/// What reading a group of three at `pos` gives.
pub open spec fn qint3_parse(s: Seq<u8>, pos: int) -> Result<(nat, nat, nat, int), DecodeError> {
    if pos < 0 || pos >= s.len() {
        Err(DecodeError::UnexpectedEof)
    } else if s[pos] >= 64 {
        Err(DecodeError::Malformed)
    } else {
        match take_le(s, pos + 1, (s[pos] % 4 + 1) as nat) {
            Err(e) => Err(e),
            Ok((a, p)) => match take_le(s, p, (s[pos] / 4 % 4 + 1) as nat) {
                Err(e) => Err(e),
                Ok((b, q)) => match take_le(s, q, (s[pos] / 16 % 4 + 1) as nat) {
                    Err(e) => Err(e),
                    Ok((c, r)) => Ok((a, b, c, r)),
                },
            },
        }
    }
}

/// Appends the pair `(a, b)` to `out` and returns the number of bytes
/// written.
pub fn qint_encode2(out: &mut Vec<u8>, a: u32, b: u32) -> (written: usize)
    ensures
        final(out)@ == old(out)@ + qint2_bytes(a as nat, b as nat),
        written == qint2_bytes(a as nat, b as nat).len(),
        3 <= written <= 9,
{
    let wa: u8 = width_of(a as u64);
    let wb: u8 = width_of(b as u64);
    out.push((wb - 1) * 4 + (wa - 1));
    write_le(out, a as u64, wa);
    write_le(out, b as u64, wb);
    proof {
        lemma_le_roundtrip(a as nat, wa as nat);
        lemma_le_roundtrip(b as nat, wb as nat);
        assert(out@ =~= old(out)@ + qint2_bytes(a as nat, b as nat));
    }
    1 + wa as usize + wb as usize
}

/// Appends the triple `(a, b, c)` to `out` and returns the number of bytes
/// written.
pub fn qint_encode3(out: &mut Vec<u8>, a: u32, b: u32, c: u32) -> (written: usize)
    ensures
        final(out)@ == old(out)@ + qint3_bytes(a as nat, b as nat, c as nat),
        written == qint3_bytes(a as nat, b as nat, c as nat).len(),
        4 <= written <= 13,
{
    let wa: u8 = width_of(a as u64);
    let wb: u8 = width_of(b as u64);
    let wc: u8 = width_of(c as u64);
    out.push((wc - 1) * 16 + (wb - 1) * 4 + (wa - 1));
    write_le(out, a as u64, wa);
    write_le(out, b as u64, wb);
    write_le(out, c as u64, wc);
    proof {
        lemma_le_roundtrip(a as nat, wa as nat);
        lemma_le_roundtrip(b as nat, wb as nat);
        lemma_le_roundtrip(c as nat, wc as nat);
        assert(out@ =~= old(out)@ + qint3_bytes(a as nat, b as nat, c as nat));
    }
    1 + wa as usize + wb as usize + wc as usize
}

/// Reads a group of two at `pos`. Returns the integers and the position
/// behind the group.
pub fn qint_decode2(src: &[u8], pos: usize) -> (r: Result<(u32, u32, usize), DecodeError>)
    ensures
        match qint2_parse(src@, pos as int) {
            Ok((a, b, end)) => r == Ok::<(u32, u32, usize), DecodeError>(
                (a as u32, b as u32, end as usize),
            ) && a <= 0xFFFF_FFFF && b <= 0xFFFF_FFFF && pos < end <= src@.len(),
            Err(e) => r == Err::<(u32, u32, usize), DecodeError>(e),
        },
{
    if pos >= src.len() {
        return Err(DecodeError::UnexpectedEof);
    }
    let h: u8 = src[pos];
    if h >= 16 {
        return Err(DecodeError::Malformed);
    }
    proof {
        lemma_pow256_values();
    }
    let (a, p) = match read_le(src, pos + 1, h % 4 + 1) {
        Ok(x) => x,
        Err(e) => { return Err(e); },
    };
    let (b, q) = match read_le(src, p, h / 4 % 4 + 1) {
        Ok(x) => x,
        Err(e) => { return Err(e); },
    };
    Ok((a as u32, b as u32, q))
}

/// Reads a group of three at `pos`. Returns the integers and the position
/// behind the group.
pub fn qint_decode3(src: &[u8], pos: usize) -> (r: Result<(u32, u32, u32, usize), DecodeError>)
    ensures
        match qint3_parse(src@, pos as int) {
            Ok((a, b, c, end)) => r == Ok::<(u32, u32, u32, usize), DecodeError>(
                (a as u32, b as u32, c as u32, end as usize),
            ) && a <= 0xFFFF_FFFF && b <= 0xFFFF_FFFF && c <= 0xFFFF_FFFF && pos < end
                <= src@.len(),
            Err(e) => r == Err::<(u32, u32, u32, usize), DecodeError>(e),
        },
{
    if pos >= src.len() {
        return Err(DecodeError::UnexpectedEof);
    }
    let h: u8 = src[pos];
    if h >= 64 {
        return Err(DecodeError::Malformed);
    }
    proof {
        lemma_pow256_values();
    }
    let (a, p) = match read_le(src, pos + 1, h % 4 + 1) {
        Ok(x) => x,
        Err(e) => { return Err(e); },
    };
    let (b, q) = match read_le(src, p, h / 4 % 4 + 1) {
        Ok(x) => x,
        Err(e) => { return Err(e); },
    };
    let (c, t) = match read_le(src, q, h / 16 % 4 + 1) {
        Ok(x) => x,
        Err(e) => { return Err(e); },
    };
    Ok((a as u32, b as u32, c as u32, t))
}

/// The parts of `e` lie in `s` where `e` lies in `s`.
pub proof fn lemma_part_in_place(s: Seq<u8>, pos: int, e: Seq<u8>, off: int, part: Seq<u8>)
    requires
        0 <= pos,
        pos + e.len() <= s.len(),
        s.subrange(pos, pos + e.len()) == e,
        0 <= off,
        off + part.len() <= e.len(),
        e.subrange(off, off + part.len()) == part,
    ensures
        s.subrange(pos + off, pos + off + part.len()) == part,
{
    assert forall|i: int| 0 <= i < part.len() implies s.subrange(
        pos + off,
        pos + off + part.len(),
    )[i] == part[i] by {
        assert(s.subrange(pos, pos + e.len())[off + i] == s[pos + off + i]);
        assert(e.subrange(off, off + part.len())[i] == e[off + i]);
    }
    assert(s.subrange(pos + off, pos + off + part.len()) =~= part);
}

/// Where each part of a header byte followed by three runs of bytes lies.
pub proof fn lemma_parts(h: u8, x: Seq<u8>, y: Seq<u8>, z: Seq<u8>)
    ensures
        (seq![h] + x + y + z).len() == 1 + (x.len() as int) + (y.len() as int) + (z.len() as int),
        (seq![h] + x + y + z)[0] == h,
        (seq![h] + x + y + z).subrange(1, 1 + (x.len() as int)) == x,
        (seq![h] + x + y + z).subrange(1 + (x.len() as int), 1 + (x.len() as int) + (y.len() as int)) == y,
        (seq![h] + x + y + z).subrange(
            1 + (x.len() as int) + (y.len() as int),
            1 + (x.len() as int) + (y.len() as int) + (z.len() as int),
        ) == z,
{
    let e = seq![h] + x + y + z;
    assert(e.subrange(1, 1 + (x.len() as int)) =~= x);
    assert(e.subrange(1 + (x.len() as int), 1 + (x.len() as int) + (y.len() as int)) =~= y);
    assert(e.subrange(1 + (x.len() as int) + (y.len() as int), 1 + (x.len() as int) + (y.len() as int) + (z.len() as int)) =~= z);
}

proof fn lemma_headers(a: nat, b: nat, c: nat)
    requires
        a <= 0xFFFF_FFFF,
        b <= 0xFFFF_FFFF,
        c <= 0xFFFF_FFFF,
    ensures
        header2(a, b) < 16,
        header2(a, b) % 4 + 1 == byte_width(a),
        header2(a, b) / 4 % 4 + 1 == byte_width(b),
        header3(a, b, c) < 64,
        header3(a, b, c) % 4 + 1 == byte_width(a),
        header3(a, b, c) / 4 % 4 + 1 == byte_width(b),
        header3(a, b, c) / 16 % 4 + 1 == byte_width(c),
        a < pow256(byte_width(a)),
        b < pow256(byte_width(b)),
        c < pow256(byte_width(c)),
        le_bytes(a, byte_width(a)).len() == byte_width(a),
        le_bytes(b, byte_width(b)).len() == byte_width(b),
        le_bytes(c, byte_width(c)).len() == byte_width(c),
{
    lemma_pow256_values();
    lemma_le_roundtrip(a, byte_width(a));
    lemma_le_roundtrip(b, byte_width(b));
    lemma_le_roundtrip(c, byte_width(c));
}

/// Reading gives back what was written: where `s` holds at `pos` the
/// encoding of a pair of 32-bit integers, the parse there yields the pair
/// and the index behind the encoding, whatever follows.
pub proof fn lemma_qint2_roundtrip(a: nat, b: nat, s: Seq<u8>, pos: int)
    requires
        a <= 0xFFFF_FFFF,
        b <= 0xFFFF_FFFF,
        0 <= pos,
        pos + qint2_bytes(a, b).len() <= s.len(),
        s.subrange(pos, pos + qint2_bytes(a, b).len()) == qint2_bytes(a, b),
    ensures
        qint2_parse(s, pos) == Ok::<(nat, nat, int), DecodeError>(
            (a, b, pos + qint2_bytes(a, b).len()),
        ),
        qint2_bytes(a, b).len() == 1 + byte_width(a) + byte_width(b),
{
    let x = le_bytes(a, byte_width(a));
    let y = le_bytes(b, byte_width(b));
    let e = qint2_bytes(a, b);
    lemma_headers(a, b, 0);
    lemma_parts(header2(a, b), x, y, Seq::empty());
    assert(e =~= seq![header2(a, b)] + x + y + Seq::empty());
    assert(s[pos] == s.subrange(pos, pos + e.len())[0]);
    lemma_part_in_place(s, pos, e, 1, x);
    lemma_part_in_place(s, pos, e, 1 + (x.len() as int), y);
    lemma_take_le(s, pos + 1, a, byte_width(a));
    lemma_take_le(s, pos + 1 + (x.len() as int), b, byte_width(b));
}

/// Reading gives back what was written, for a triple.
pub proof fn lemma_qint3_roundtrip(a: nat, b: nat, c: nat, s: Seq<u8>, pos: int)
    requires
        a <= 0xFFFF_FFFF,
        b <= 0xFFFF_FFFF,
        c <= 0xFFFF_FFFF,
        0 <= pos,
        pos + qint3_bytes(a, b, c).len() <= s.len(),
        s.subrange(pos, pos + qint3_bytes(a, b, c).len()) == qint3_bytes(a, b, c),
    ensures
        qint3_parse(s, pos) == Ok::<(nat, nat, nat, int), DecodeError>(
            (a, b, c, pos + qint3_bytes(a, b, c).len()),
        ),
        qint3_bytes(a, b, c).len() == 1 + byte_width(a) + byte_width(b) + byte_width(c),
{
    let x = le_bytes(a, byte_width(a));
    let y = le_bytes(b, byte_width(b));
    let z = le_bytes(c, byte_width(c));
    let e = qint3_bytes(a, b, c);
    lemma_headers(a, b, c);
    lemma_parts(header3(a, b, c), x, y, z);
    assert(e =~= seq![header3(a, b, c)] + x + y + z);
    assert(s[pos] == s.subrange(pos, pos + e.len())[0]);
    lemma_part_in_place(s, pos, e, 1, x);
    lemma_part_in_place(s, pos, e, 1 + (x.len() as int), y);
    lemma_part_in_place(s, pos, e, 1 + (x.len() as int) + (y.len() as int), z);
    lemma_take_le(s, pos + 1, a, byte_width(a));
    lemma_take_le(s, pos + 1 + (x.len() as int), b, byte_width(b));
    lemma_take_le(s, pos + 1 + (x.len() as int) + (y.len() as int), c, byte_width(c));
}

/// The bytes behind the first integer of a group do not depend on it.
pub proof fn lemma_qint_tail(a: nat, b: nat, c: nat)
    ensures
        qint2_bytes(a, b).skip(1 + byte_width(a) as int) == qint2_tail(b),
        qint3_bytes(a, b, c).skip(1 + byte_width(a) as int) == qint3_tail(b, c),
{
    lemma_le_roundtrip(a, byte_width(a));
    assert(qint2_bytes(a, b).skip(1 + byte_width(a) as int) =~= qint2_tail(b));
    assert(qint3_bytes(a, b, c).skip(1 + byte_width(a) as int) =~= qint3_tail(b, c));
}

} // verus!
