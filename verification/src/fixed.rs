//! Little-endian integers of an announced width.
//!
//! The header byte of a record announces, for each fixed-width field, how
//! many bytes of it follow. A field is written with the fewest bytes that
//! hold it.

use vstd::prelude::*;
use crate::error::DecodeError;

verus! {

/// 256 to the power `n`.
pub open spec fn pow256(n: nat) -> nat
    decreases n,
{
    if n == 0 {
        1
    } else {
        256 * pow256((n - 1) as nat)
    }
}

/// The `n` low bytes of `v`, least significant first.
pub open spec fn le_bytes(v: nat, n: nat) -> Seq<u8>
    decreases n,
{
    if n == 0 {
        Seq::empty()
    } else {
        seq![(v % 256) as u8] + le_bytes(v / 256, (n - 1) as nat)
    }
}

/// The number that the bytes of `s` spell, least significant first.
pub open spec fn le_value(s: Seq<u8>) -> nat
    decreases s.len(),
{
    if s.len() == 0 {
        0
    } else {
        s[0] as nat + 256 * le_value(s.drop_first())
    }
}

/// The fewest bytes, at least one, that hold `v`.
pub open spec fn byte_width(v: nat) -> nat {
    if v < 0x100 {
        1
    } else if v < 0x1_0000 {
        2
    } else if v < 0x100_0000 {
        3
    } else if v < 0x1_0000_0000 {
        4
    } else if v < 0x100_0000_0000 {
        5
    } else if v < 0x1_0000_0000_0000 {
        6
    } else if v < 0x100_0000_0000_0000 {
        7
    } else {
        8
    }
}

/// What reading `n` bytes at `pos` gives: their value and the index behind
/// them, or the end of the source.
pub open spec fn take_le(s: Seq<u8>, pos: int, n: nat) -> Result<(nat, int), DecodeError> {
    if 0 <= pos && pos + n <= s.len() {
        Ok((le_value(s.subrange(pos, pos + n)), pos + n))
    } else {
        Err(DecodeError::UnexpectedEof)
    }
}

/// The powers of 256 up to the eighth.
pub proof fn lemma_pow256_values()
    ensures
        pow256(0) == 1,
        pow256(1) == 0x100,
        pow256(2) == 0x1_0000,
        pow256(3) == 0x100_0000,
        pow256(4) == 0x1_0000_0000,
        pow256(5) == 0x100_0000_0000,
        pow256(6) == 0x1_0000_0000_0000,
        pow256(7) == 0x100_0000_0000_0000,
        pow256(8) == 0x1_0000_0000_0000_0000,
{
    reveal_with_fuel(pow256, 9);
}

/// `n` bytes spell a number below 256 to the `n`.
pub proof fn lemma_le_value_bound(s: Seq<u8>)
    ensures
        le_value(s) < pow256(s.len()),
    decreases s.len(),
{
    if s.len() > 0 {
        lemma_le_value_bound(s.drop_first());
    }
}

/// `le_bytes(v, n)` has `n` bytes, and they spell `v` where `v` fits.
pub proof fn lemma_le_roundtrip(v: nat, n: nat)
    ensures
        le_bytes(v, n).len() == n,
        v < pow256(n) ==> le_value(le_bytes(v, n)) == v,
    decreases n,
{
    if n > 0 {
        lemma_le_roundtrip(v / 256, (n - 1) as nat);
        assert(le_bytes(v, n).drop_first() =~= le_bytes(v / 256, (n - 1) as nat));
    }
}

/// Where the bytes of `s` at `pos` are the `n` low bytes of a fitting `v`,
/// reading `n` bytes there gives `v`.
pub proof fn lemma_take_le(s: Seq<u8>, pos: int, v: nat, n: nat)
    requires
        0 <= pos,
        pos + n <= s.len(),
        v < pow256(n),
        s.subrange(pos, pos + n) == le_bytes(v, n),
    ensures
        take_le(s, pos, n) == Ok::<(nat, int), DecodeError>((v, pos + n)),
{
    lemma_le_roundtrip(v, n);
}

/// The fewest bytes, at least one, that hold `v`.
pub fn width_of(v: u64) -> (n: u8)
    ensures
        n == byte_width(v as nat),
        1 <= n <= 8,
        v < pow256(n as nat),
        v <= 0xFFFF_FFFF ==> n <= 4,
{
    proof {
        lemma_pow256_values();
    }
    if v < 0x100 {
        1
    } else if v < 0x1_0000 {
        2
    } else if v < 0x100_0000 {
        3
    } else if v < 0x1_0000_0000 {
        4
    } else if v < 0x100_0000_0000 {
        5
    } else if v < 0x1_0000_0000_0000 {
        6
    } else if v < 0x100_0000_0000_0000 {
        7
    } else {
        8
    }
}

/// Appends the `n` low bytes of `v` to `out`, least significant first.
pub fn write_le(out: &mut Vec<u8>, v: u64, n: u8)
    ensures
        final(out)@ == old(out)@ + le_bytes(v as nat, n as nat),
        final(out)@.len() == old(out)@.len() + n,
    decreases n,
{
    proof {
        lemma_le_roundtrip(v as nat, n as nat);
    }
    if n > 0 {
        out.push((v % 256) as u8);
        write_le(out, v / 256, n - 1);
        assert(out@ =~= old(out)@ + le_bytes(v as nat, n as nat));
    } else {
        assert(out@ =~= old(out)@ + le_bytes(v as nat, n as nat));
    }
}

/// Reads `n` bytes at `pos` as a little-endian number. Returns the number
/// and the position behind it.
pub fn read_le(src: &[u8], pos: usize, n: u8) -> (r: Result<(u64, usize), DecodeError>)
    requires
        n <= 8,
    ensures
        match take_le(src@, pos as int, n as nat) {
            Ok((v, end)) => r == Ok::<(u64, usize), DecodeError>((v as u64, end as usize)) && v
                < pow256(n as nat) && end == pos + n && end <= src@.len(),
            Err(e) => r == Err::<(u64, usize), DecodeError>(e),
        },
{
    let len: usize = src.len();
    if pos > len || len - pos < n as usize {
        return Err(DecodeError::UnexpectedEof);
    }
    let end: usize = pos + n as usize;
    let mut at: usize = end;
    let mut val: u64 = 0;
    proof {
        lemma_pow256_values();
        assert(src@.subrange(end as int, end as int).len() == 0);
    }
    while at > pos
        invariant
            pos <= at <= end,
            end == pos + n,
            end <= src@.len(),
            n <= 8,
            val == le_value(src@.subrange(at as int, end as int)),
        decreases at,
    {
        proof {
            let k = (end - at) as nat;
            lemma_le_value_bound(src@.subrange(at as int, end as int));
            lemma_pow256_values();
            assert(k == 0 || k == 1 || k == 2 || k == 3 || k == 4 || k == 5 || k == 6 || k == 7);
            assert(val < 0x100_0000_0000_0000);
            assert(src@.subrange(at - 1, end as int).drop_first() =~= src@.subrange(
                at as int,
                end as int,
            ));
        }
        at = at - 1;
        val = val * 256 + src[at] as u64;
    }
    proof {
        lemma_le_value_bound(src@.subrange(pos as int, end as int));
    }
    Ok((val, end))
}

} // verus!
