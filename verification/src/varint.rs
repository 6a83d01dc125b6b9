//! Base-128 continuation varints.
//!
//! A value is split into 7-bit groups, least significant group first; the
//! groups are laid out most significant first, every byte but the last has
//! its high bit set, and every group but the least significant is stored
//! one less than it is, so that each value has exactly one encoding.
//! The same layout is used at 32 bits for document-id deltas and at 128
//! bits for wide field masks.

use vstd::prelude::*;
use crate::error::DecodeError;

verus! {

/// The continuation bytes that precede the last byte, for the part `w` of a
/// value that lies above its lowest seven bits.
pub open spec fn varint_head(w: nat) -> Seq<u8>
    decreases w,
{
    if w == 0 {
        Seq::empty()
    } else {
        varint_head(((w - 1) / 128) as nat).push((128 + (w - 1) % 128) as u8)
    }
}

/// The encoding of `v`.
pub open spec fn varint_bytes(v: nat) -> Seq<u8> {
    varint_head(v / 128).push((v % 128) as u8)
}

/// The value that a reader has accumulated once it has read all of `s`.
pub open spec fn varint_value(s: Seq<u8>) -> nat
    decreases s.len(),
{
    if s.len() == 0 {
        0
    } else if s.len() == 1 {
        (s[0] % 128) as nat
    } else {
        (varint_value(s.drop_last()) + 1) * 128 + (s.last() % 128) as nat
    }
}

/// The index of the byte at which a reader stops that started at `start`
/// and is about to look at index `i`: the first byte without a continuation
/// bit, or the first one with which the value exceeds `max`. `None` where
/// the source ends before either.
pub open spec fn varint_stop(s: Seq<u8>, start: int, i: int, max: nat) -> Option<int>
    decreases s.len() - i,
{
    if i < start || start < 0 || i >= s.len() {
        None
    } else if s[i] < 128 || varint_value(s.subrange(start, i + 1)) > max {
        Some(i)
    } else {
        varint_stop(s, start, i + 1, max)
    }
}

/// What reading one varint of at most `max` from `s` at `start` gives: the
/// value and the index behind its last byte.
pub open spec fn varint_parse(s: Seq<u8>, start: int, max: nat) -> Result<(nat, int), DecodeError> {
    match varint_stop(s, start, start, max) {
        None => Err(DecodeError::UnexpectedEof),
        Some(i) => {
            let v = varint_value(s.subrange(start, i + 1));
            if v > max {
                Err(DecodeError::Overflow)
            } else {
                Ok((v, i + 1))
            }
        },
    }
}

/// The largest value of 32 bits.
pub open spec fn max32() -> nat {
    0xFFFF_FFFF
}

/// The largest value of 128 bits.
pub open spec fn max128() -> nat {
    0xFFFF_FFFF_FFFF_FFFF_FFFF_FFFF_FFFF_FFFF
}

fn push_head32(out: &mut Vec<u8>, w: u32)
    ensures
        final(out)@ == old(out)@ + varint_head(w as nat),
    decreases w,
{
    if w > 0 {
        let below: u32 = w - 1;
        push_head32(out, below / 128);
        out.push((128 + below % 128) as u8);
        assert(out@ =~= old(out)@ + varint_head(w as nat));
    } else {
        assert(out@ =~= old(out)@ + varint_head(w as nat));
    }
}

fn push_head128(out: &mut Vec<u8>, w: u128)
    ensures
        final(out)@ == old(out)@ + varint_head(w as nat),
    decreases w,
{
    if w > 0 {
        let below: u128 = w - 1;
        push_head128(out, below / 128);
        out.push((128 + below % 128) as u8);
        assert(out@ =~= old(out)@ + varint_head(w as nat));
    } else {
        assert(out@ =~= old(out)@ + varint_head(w as nat));
    }
}

/// Appends the varint of a 32-bit value to `out` and returns the number of
/// bytes written.
pub fn write_varint(out: &mut Vec<u8>, value: u32) -> (written: usize)
    ensures
        final(out)@ == old(out)@ + varint_bytes(value as nat),
        written == varint_bytes(value as nat).len(),
        1 <= written <= 5,
{
    let before: usize = out.len();
    push_head32(out, value / 128);
    out.push((value % 128) as u8);
    proof {
        assert(out@ =~= old(out)@ + varint_bytes(value as nat));
        lemma_varint_len(value as nat);
    }
    out.len() - before
}

/// Appends the field-mask varint of a 128-bit mask to `out` and returns the
/// number of bytes written.
pub fn write_varint_field_mask(out: &mut Vec<u8>, mask: u128) -> (written: usize)
    ensures
        final(out)@ == old(out)@ + varint_bytes(mask as nat),
        written == varint_bytes(mask as nat).len(),
        1 <= written <= 19,
{
    let before: usize = out.len();
    push_head128(out, mask / 128);
    out.push((mask % 128) as u8);
    proof {
        assert(out@ =~= old(out)@ + varint_bytes(mask as nat));
        lemma_varint_len(mask as nat);
    }
    out.len() - before
}

/// Reads one varint of 32 bits from `src` at `pos`. Returns the value and
/// the position behind it.
pub fn read_varint(src: &[u8], pos: usize) -> (r: Result<(u32, usize), DecodeError>)
    ensures
        match varint_parse(src@, pos as int, max32()) {
            Ok((v, end)) => r == Ok::<(u32, usize), DecodeError>((v as u32, end as usize))
                && v <= max32() && pos < end <= src@.len(),
            Err(e) => r == Err::<(u32, usize), DecodeError>(e),
        },
{
    if pos >= src.len() {
        return Err(DecodeError::UnexpectedEof);
    }
    let mut c: u8 = src[pos];
    let mut val: u32 = (c % 128) as u32;
    let mut i: usize = pos;
    let n: usize = src.len();
    assert(src@.subrange(pos as int, pos + 1)[0] == src@[pos as int]);
    while c >= 128
        invariant
            n == src@.len(),
            pos <= i < n,
            c == src@[i as int],
            val == varint_value(src@.subrange(pos as int, i + 1)),
            val <= max32(),
            varint_stop(src@, pos as int, pos as int, max32()) == varint_stop(
                src@,
                pos as int,
                i as int,
                max32(),
            ),
        decreases src@.len() - i,
    {
        assert(varint_stop(src@, pos as int, i as int, max32()) == varint_stop(
            src@,
            pos as int,
            i + 1,
            max32(),
        ));
        if i + 1 >= n {
            return Err(DecodeError::UnexpectedEof);
        }
        i = i + 1;
        c = src[i];
        let low: u32 = (c % 128) as u32;
        proof {
            let t = src@.subrange(pos as int, i + 1);
            assert(t.drop_last() =~= src@.subrange(pos as int, i as int));
            assert(t.last() == c);
        }
        if val >= 0xFFFF_FFFF / 128 {
            return Err(DecodeError::Overflow);
        }
        val = (val + 1) * 128 + low;
    }
    Ok((val, i + 1))
}

/// Reads one field-mask varint of 128 bits from `src` at `pos`. Returns the
/// mask and the position behind it.
pub fn read_varint_field_mask(src: &[u8], pos: usize) -> (r: Result<(u128, usize), DecodeError>)
    ensures
        match varint_parse(src@, pos as int, max128()) {
            Ok((v, end)) => r == Ok::<(u128, usize), DecodeError>((v as u128, end as usize))
                && v <= max128() && pos < end <= src@.len(),
            Err(e) => r == Err::<(u128, usize), DecodeError>(e),
        },
{
    if pos >= src.len() {
        return Err(DecodeError::UnexpectedEof);
    }
    let mut c: u8 = src[pos];
    let mut val: u128 = (c % 128) as u128;
    let mut i: usize = pos;
    let n: usize = src.len();
    assert(src@.subrange(pos as int, pos + 1)[0] == src@[pos as int]);
    while c >= 128
        invariant
            n == src@.len(),
            pos <= i < n,
            c == src@[i as int],
            val == varint_value(src@.subrange(pos as int, i + 1)),
            val <= max128(),
            varint_stop(src@, pos as int, pos as int, max128()) == varint_stop(
                src@,
                pos as int,
                i as int,
                max128(),
            ),
        decreases src@.len() - i,
    {
        assert(varint_stop(src@, pos as int, i as int, max128()) == varint_stop(
            src@,
            pos as int,
            i + 1,
            max128(),
        ));
        if i + 1 >= n {
            return Err(DecodeError::UnexpectedEof);
        }
        i = i + 1;
        c = src[i];
        let low: u128 = (c % 128) as u128;
        proof {
            let t = src@.subrange(pos as int, i + 1);
            assert(t.drop_last() =~= src@.subrange(pos as int, i as int));
            assert(t.last() == c);
        }
        if val >= 0xFFFF_FFFF_FFFF_FFFF_FFFF_FFFF_FFFF_FFFF / 128 {
            return Err(DecodeError::Overflow);
        }
        val = (val + 1) * 128 + low;
    }
    Ok((val, i + 1))
}

proof fn lemma_head_len_any(w: nat, k: nat)
    requires
        w < pow128(k),
    ensures
        varint_head(w).len() <= k,
    decreases w,
{
    if w > 0 {
        assert(k > 0);
        lemma_head_len_any(((w - 1) / 128) as nat, (k - 1) as nat);
    }
}

/// 128 to the power `k`.
pub open spec fn pow128(k: nat) -> nat
    decreases k,
{
    if k == 0 { 1 } else { 128 * pow128((k - 1) as nat) }
}

/// A varint of 32 bits has at most five bytes, one of 128 bits at most
/// nineteen.
pub proof fn lemma_varint_len(v: nat)
    ensures
        varint_bytes(v).len() == varint_head(v / 128).len() + 1,
        v <= max32() ==> varint_bytes(v).len() <= 5,
        v <= max128() ==> varint_bytes(v).len() <= 19,
{
    if v <= max32() {
        reveal_with_fuel(pow128, 5);
        assert(pow128(4) == 0x1000_0000);
        lemma_head_len_any(v / 128, 4);
    }
    if v <= max128() {
        reveal_with_fuel(pow128, 19);
        assert(pow128(18) == 0x4000_0000_0000_0000_0000_0000_0000_0000);
        lemma_head_len_any(v / 128, 18);
    }
}

proof fn lemma_head_props(w: nat)
    ensures
        w > 0 ==> varint_head(w).len() > 0 && varint_value(varint_head(w)) == w - 1,
        w == 0 ==> varint_head(w).len() == 0,
        forall|j: int| 0 <= j < varint_head(w).len() ==> #[trigger] varint_head(w)[j] >= 128,
        forall|k: int|
            0 < k <= varint_head(w).len() ==> #[trigger] varint_value(
                varint_head(w).subrange(0, k),
            ) < w,
    decreases w,
{
    if w > 0 {
        let below = ((w - 1) / 128) as nat;
        let h = varint_head(w);
        let g = varint_head(below);
        lemma_head_props(below);
        assert(h.drop_last() =~= g);
        assert(h.last() == (128 + (w - 1) % 128) as u8);
        assert forall|k: int| 0 < k <= h.len() implies #[trigger] varint_value(h.subrange(0, k))
            < w by {
            if k < h.len() {
                assert(h.subrange(0, k) =~= g.subrange(0, k));
            } else {
                assert(h.subrange(0, k) =~= h);
            }
        }
    }
}

proof fn lemma_stop_at(s: Seq<u8>, start: int, i: int, end: int, max: nat)
    requires
        0 <= start <= i <= end < s.len(),
        s[end] < 128,
        forall|j: int|
            i <= j < end ==> #[trigger] s[j] >= 128 && varint_value(s.subrange(start, j + 1))
                <= max,
    ensures
        varint_stop(s, start, i, max) == Some(end),
    decreases end - i,
{
    if i < end {
        lemma_stop_at(s, start, i + 1, end, max);
    }
}

/// Reading gives back what was written: where the bytes of `s` from `start`
/// on begin with the encoding of a value `v` that fits `max`, the parse at
/// `start` yields `v` and the index behind the encoding, whatever follows.
pub proof fn lemma_varint_roundtrip(v: nat, max: nat, s: Seq<u8>, start: int)
    requires
        v <= max,
        0 <= start,
        start + varint_bytes(v).len() <= s.len(),
        s.subrange(start, start + varint_bytes(v).len()) == varint_bytes(v),
    ensures
        varint_parse(s, start, max) == Ok::<(nat, int), DecodeError>(
            (v, start + varint_bytes(v).len()),
        ),
{
    let w = v / 128;
    let h = varint_head(w);
    let b = varint_bytes(v);
    let end = start + h.len();
    lemma_head_props(w);
    assert(b.drop_last() =~= h);
    assert(varint_value(b) == v);
    assert forall|j: int| 0 <= j < b.len() implies s[start + j] == #[trigger] b[j] by {
        assert(s.subrange(start, start + b.len())[j] == s[start + j]);
    }
    assert forall|j: int| start <= j < end implies #[trigger] s[j] >= 128 && varint_value(
        s.subrange(start, j + 1),
    ) <= max by {
        assert(s[j] == b[j - start]);
        assert(b[j - start] == h[j - start]);
        assert(s.subrange(start, j + 1) =~= h.subrange(0, j + 1 - start));
    }
    assert(s[end] == b[h.len() as int]);
    lemma_stop_at(s, start, start, end, max);
    assert(s.subrange(start, end + 1) =~= b);
}

} // verus!
