//! The five record codecs over index results.
//!
//! An encoder appends one record to a buffer: the delta to the previous
//! document first, then what the codec carries of the result. A decoder
//! reads one record at a position, adds the delta to a base document id
//! and says whether the record passes the caller's filter; it returns the
//! position behind the record whether or not the record passes.

use vstd::prelude::*;
use crate::classify::{classified, classify, double_bits, double_bits_of};
use crate::error::{DecodeError, EncodeError};
use crate::filter::{passes, NumericFilter};
use crate::numeric::{max_numeric_delta, numeric_bytes, numeric_parse};
use crate::offsets::RSOffsetVector;
use crate::qint::{
    qint2_bytes, qint2_parse, qint3_bytes, qint3_parse, qint_decode2, qint_decode3, qint_encode2,
    qint_encode3,
};
use crate::result::{RSIndexResult, RSResultData, FIELD_MASK_ALL};
use crate::varint::{
    max128, max32, read_varint, read_varint_field_mask, varint_bytes, varint_parse, write_varint,
    write_varint_field_mask,
};

verus! {

/// A growable byte buffer that records are written to and read from.
#[derive(Clone, Debug, PartialEq, Eq)]
pub struct TestBuffer(pub Vec<u8>);

impl TestBuffer {
    /// An empty buffer with room for `cap` bytes.
    pub fn with_capacity(cap: usize) -> (buffer: Self)
        ensures
            buffer.0@ == Seq::<u8>::empty(),
    {
        TestBuffer(Vec::with_capacity(cap))
    }
}

/// The term result that a decoder makes: no offsets.
pub open spec fn term_record<'a>(doc_id: u64, freq: u32, field_mask: u128) -> RSIndexResult<'a> {
    RSIndexResult { doc_id, field_mask, freq, data: RSResultData::Term(RSOffsetVector::Empty) }
}

/// The virtual result that a decoder makes: in no field.
pub open spec fn virt_record<'a>(doc_id: u64, freq: u32) -> RSIndexResult<'a> {
    RSIndexResult { doc_id, field_mask: 0, freq, data: RSResultData::Virtual }
}

/// The numeric result that a decoder makes, for the number with the bits
/// `value`: once, in every field.
pub open spec fn numeric_record<'a>(doc_id: u64, value: u64) -> RSIndexResult<'a> {
    RSIndexResult {
        doc_id,
        field_mask: FIELD_MASK_ALL,
        freq: 1,
        data: RSResultData::Numeric(value),
    }
}

/// The document id of a record: the base id plus the delta, which must
/// fit 64 bits.
pub open spec fn doc_of(base_id: u64, delta: nat) -> Result<u64, DecodeError> {
    if base_id + delta > u64::MAX {
        Err(DecodeError::Overflow)
    } else {
        Ok((base_id + delta) as u64)
    }
}

/// Whether what a decoder returned is what the format says.
pub open spec fn agrees<'a>(
    r: Result<(bool, RSIndexResult<'a>, usize), DecodeError>,
    m: Result<(bool, RSIndexResult<'a>, int), DecodeError>,
) -> bool {
    match m {
        Ok((matched, record, end)) => 0 <= end <= usize::MAX && r == Ok::<
            (bool, RSIndexResult<'a>, usize),
            DecodeError,
        >((matched, record, end as usize)),
        Err(e) => r == Err::<(bool, RSIndexResult<'a>, usize), DecodeError>(e),
    }
}

/// Whether what a reader of the first record returned is what the format
/// says.
pub open spec fn agrees_first<'a>(
    r: Result<(bool, RSIndexResult<'a>), DecodeError>,
    m: Result<(bool, RSIndexResult<'a>, int), DecodeError>,
) -> bool {
    match m {
        Ok((matched, record, end)) => r == Ok::<(bool, RSIndexResult<'a>), DecodeError>(
            (matched, record),
        ),
        Err(e) => r == Err::<(bool, RSIndexResult<'a>), DecodeError>(e),
    }
}

/// The bytes of a record of delta and frequency.
pub open spec fn freqs_only_bytes(delta: nat, freq: u32) -> Seq<u8> {
    qint2_bytes(delta, freq as nat)
}

/// The bytes of a record of delta, frequency and field mask.
pub open spec fn freqs_fields_bytes(delta: nat, freq: u32, mask: u128, wide: bool) -> Seq<u8> {
    if wide {
        qint2_bytes(delta, freq as nat) + varint_bytes(mask as nat)
    } else {
        qint3_bytes(delta, freq as nat, mask as nat)
    }
}

/// The bytes of a record of delta and field mask.
pub open spec fn fields_only_bytes(delta: nat, mask: u128, wide: bool) -> Seq<u8> {
    if wide {
        varint_bytes(delta) + varint_bytes(mask as nat)
    } else {
        qint2_bytes(delta, mask as nat)
    }
}

/// The bytes of a record of a delta alone.
pub open spec fn doc_ids_only_bytes(delta: nat) -> Seq<u8> {
    varint_bytes(delta)
}

/// What reading a numeric record at `pos` gives; the record passes where
/// there is no filter or its number lies in the range of the filter.
pub open spec fn numeric_read<'a>(
    s: Seq<u8>,
    pos: int,
    base_id: u64,
    filter: Option<NumericFilter>,
) -> Result<(bool, RSIndexResult<'a>, int), DecodeError> {
    match numeric_parse(s, pos) {
        Err(e) => Err(e),
        Ok((d, v, end)) => match doc_of(base_id, d) {
            Err(e) => Err(e),
            Ok(id) => Ok(
                (
                    passes(filter, double_bits_of(v)),
                    numeric_record(id, double_bits_of(v)),
                    end,
                ),
            ),
        },
    }
}

/// What reading a record of delta and frequency at `pos` gives.
pub open spec fn freqs_only_read<'a>(s: Seq<u8>, pos: int, base_id: u64) -> Result<
    (bool, RSIndexResult<'a>, int),
    DecodeError,
> {
    match qint2_parse(s, pos) {
        Err(e) => Err(e),
        Ok((d, f, end)) => match doc_of(base_id, d) {
            Err(e) => Err(e),
            Ok(id) => Ok((true, virt_record(id, f as u32), end)),
        },
    }
}

/// What reading a record of delta, frequency and field mask at `pos`
/// gives; the record passes where its mask shares a field with `filter`.
pub open spec fn freqs_fields_read<'a>(
    s: Seq<u8>,
    pos: int,
    base_id: u64,
    wide: bool,
    filter: u128,
) -> Result<(bool, RSIndexResult<'a>, int), DecodeError> {
    if wide {
        match qint2_parse(s, pos) {
            Err(e) => Err(e),
            Ok((d, f, p)) => match doc_of(base_id, d) {
                Err(e) => Err(e),
                Ok(id) => match varint_parse(s, p, max128()) {
                    Err(e) => Err(e),
                    Ok((m, end)) => Ok(
                        ((m as u128) & filter != 0, term_record(id, f as u32, m as u128), end),
                    ),
                },
            },
        }
    } else {
        match qint3_parse(s, pos) {
            Err(e) => Err(e),
            Ok((d, f, m, end)) => match doc_of(base_id, d) {
                Err(e) => Err(e),
                Ok(id) => Ok(
                    ((m as u128) & filter != 0, term_record(id, f as u32, m as u128), end),
                ),
            },
        }
    }
}

/// What reading a record of delta and field mask at `pos` gives. The wide
/// layout carries no frequency and counts the term once.
pub open spec fn fields_only_read<'a>(
    s: Seq<u8>,
    pos: int,
    base_id: u64,
    wide: bool,
    filter: u128,
) -> Result<(bool, RSIndexResult<'a>, int), DecodeError> {
    if wide {
        match varint_parse(s, pos, max32()) {
            Err(e) => Err(e),
            Ok((d, p)) => match doc_of(base_id, d) {
                Err(e) => Err(e),
                Ok(id) => match varint_parse(s, p, max128()) {
                    Err(e) => Err(e),
                    Ok((m, end)) => Ok(
                        ((m as u128) & filter != 0, term_record(id, 1, m as u128), end),
                    ),
                },
            },
        }
    } else {
        match qint2_parse(s, pos) {
            Err(e) => Err(e),
            Ok((d, m, end)) => match doc_of(base_id, d) {
                Err(e) => Err(e),
                Ok(id) => Ok(((m as u128) & filter != 0, term_record(id, 0, m as u128), end)),
            },
        }
    }
}

/// What reading a record of a delta alone at `pos` gives: a term that
/// occurs once.
pub open spec fn doc_ids_only_read<'a>(s: Seq<u8>, pos: int, base_id: u64) -> Result<
    (bool, RSIndexResult<'a>, int),
    DecodeError,
> {
    match varint_parse(s, pos, max32()) {
        Err(e) => Err(e),
        Ok((d, end)) => match doc_of(base_id, d) {
            Err(e) => Err(e),
            Ok(id) => Ok((true, term_record(id, 1, 0), end)),
        },
    }
}

fn advance(base_id: u64, delta: u64) -> (r: Result<u64, DecodeError>)
    ensures
        r == doc_of(base_id, delta as nat),
{
    match base_id.checked_add(delta) {
        Some(id) => Ok(id),
        None => Err(DecodeError::Overflow),
    }
}

/// Appends the numeric record of `record` to `buffer`, with its number in
/// the form that takes the fewest bytes, and returns the number of bytes
/// written. A result that is not numeric and a delta of more than seven
/// bytes are refused, and the buffer is left as it was.
pub fn encode_numeric(buffer: &mut TestBuffer, record: &RSIndexResult<'_>, delta: u64) -> (r:
    Result<usize, EncodeError>)
    ensures
        match record.data {
            RSResultData::Numeric(bits) => if delta <= max_numeric_delta() {
                &&& r == Ok::<usize, EncodeError>(
                    numeric_bytes(delta as nat, classified(bits)).len() as usize,
                )
                &&& final(buffer).0@ == old(buffer).0@ + numeric_bytes(
                    delta as nat,
                    classified(bits),
                )
            } else {
                &&& r == Err::<usize, EncodeError>(EncodeError::DeltaTooLarge)
                &&& final(buffer).0@ == old(buffer).0@
            },
            _ => {
                &&& r == Err::<usize, EncodeError>(EncodeError::WrongKind)
                &&& final(buffer).0@ == old(buffer).0@
            },
        },
{
    match &record.data {
        RSResultData::Numeric(bits) => crate::numeric::encode(
            &mut buffer.0,
            delta,
            classify(*bits),
        ),
        _ => Err(EncodeError::WrongKind),
    }
}

/// Reads the numeric record at `pos`. The record passes where there is no
/// filter or its number lies in the range of the filter.
pub fn decode_numeric<'a>(
    src: &[u8],
    pos: usize,
    base_id: u64,
    filter: Option<NumericFilter>,
) -> (r: Result<(bool, RSIndexResult<'a>, usize), DecodeError>)
    ensures
        agrees(r, numeric_read(src@, pos as int, base_id, filter)),
{
    proof {
        assert(src@.len() == src.len());
    }
    let (delta, value, end) = match crate::numeric::decode(src, pos) {
        Ok(x) => x,
        Err(e) => { return Err(e); },
    };
    let id: u64 = match advance(base_id, delta) {
        Ok(x) => x,
        Err(e) => { return Err(e); },
    };
    let bits: u64 = double_bits(value);
    let matched: bool = match filter {
        None => true,
        Some(f) => f.contains(bits),
    };
    Ok(
        (
            matched,
            RSIndexResult {
                doc_id: id,
                field_mask: FIELD_MASK_ALL,
                freq: 1,
                data: RSResultData::Numeric(bits),
            },
            end,
        ),
    )
}

/// Reads the first numeric record of `buffer`, without a filter: it
/// passes.
pub fn read_numeric<'a>(buffer: &[u8], base_id: u64) -> (r: Result<
    (bool, RSIndexResult<'a>),
    DecodeError,
>)
    ensures
        agrees_first(r, numeric_read(buffer@, 0, base_id, None)),
{
    match decode_numeric(buffer, 0, base_id, None) {
        Ok((matched, record, _)) => Ok((matched, record)),
        Err(e) => Err(e),
    }
}

/// Appends the delta and the frequency of `record` to `buffer` and returns
/// the number of bytes written. A delta of more than 32 bits is refused,
/// and the buffer is left as it was.
pub fn encode_freqs_only(buffer: &mut TestBuffer, record: &RSIndexResult<'_>, delta: u64) -> (r:
    Result<usize, EncodeError>)
    ensures
        if delta <= max32() {
            &&& r == Ok::<usize, EncodeError>(
                freqs_only_bytes(delta as nat, record.freq).len() as usize,
            )
            &&& final(buffer).0@ == old(buffer).0@ + freqs_only_bytes(delta as nat, record.freq)
        } else {
            &&& r == Err::<usize, EncodeError>(EncodeError::DeltaTooLarge)
            &&& final(buffer).0@ == old(buffer).0@
        },
{
    if delta > 0xFFFF_FFFF {
        return Err(EncodeError::DeltaTooLarge);
    }
    Ok(qint_encode2(&mut buffer.0, delta as u32, record.freq))
}

/// Reads the record of delta and frequency at `pos`. Every record passes.
pub fn decode_freqs_only<'a>(src: &[u8], pos: usize, base_id: u64) -> (r: Result<
    (bool, RSIndexResult<'a>, usize),
    DecodeError,
>)
    ensures
        agrees(r, freqs_only_read(src@, pos as int, base_id)),
{
    proof {
        assert(src@.len() == src.len());
    }
    let (delta, freq, end) = match qint_decode2(src, pos) {
        Ok(x) => x,
        Err(e) => { return Err(e); },
    };
    let id: u64 = match advance(base_id, delta as u64) {
        Ok(x) => x,
        Err(e) => { return Err(e); },
    };
    Ok((true, RSIndexResult { doc_id: id, field_mask: 0, freq, data: RSResultData::Virtual }, end))
}

/// Reads the first record of delta and frequency of `buffer`.
pub fn read_freqs<'a>(buffer: &[u8], base_id: u64) -> (r: Result<
    (bool, RSIndexResult<'a>),
    DecodeError,
>)
    ensures
        agrees_first(r, freqs_only_read(buffer@, 0, base_id)),
{
    match decode_freqs_only(buffer, 0, base_id) {
        Ok((matched, record, _)) => Ok((matched, record)),
        Err(e) => Err(e),
    }
}

/// Appends the delta, the frequency and the field mask of `record` to
/// `buffer` and returns the number of bytes written. A delta of more than
/// 32 bits is refused, and in the narrow layout a field mask of more than
/// 32 bits; the buffer is then left as it was.
pub fn encode_freqs_fields(
    buffer: &mut TestBuffer,
    record: &RSIndexResult<'_>,
    delta: u64,
    wide: bool,
) -> (r: Result<usize, EncodeError>)
    ensures
        if delta > max32() {
            &&& r == Err::<usize, EncodeError>(EncodeError::DeltaTooLarge)
            &&& final(buffer).0@ == old(buffer).0@
        } else if !wide && record.field_mask > max32() {
            &&& r == Err::<usize, EncodeError>(EncodeError::MaskTooWide)
            &&& final(buffer).0@ == old(buffer).0@
        } else {
            &&& r == Ok::<usize, EncodeError>(
                freqs_fields_bytes(delta as nat, record.freq, record.field_mask, wide).len() as usize,
            )
            &&& final(buffer).0@ == old(buffer).0@ + freqs_fields_bytes(
                delta as nat,
                record.freq,
                record.field_mask,
                wide,
            )
        },
{
    if delta > 0xFFFF_FFFF {
        return Err(EncodeError::DeltaTooLarge);
    }
    if wide {
        let head: usize = qint_encode2(&mut buffer.0, delta as u32, record.freq);
        let tail: usize = write_varint_field_mask(&mut buffer.0, record.field_mask);
        assert(buffer.0@ =~= old(buffer).0@ + freqs_fields_bytes(
            delta as nat,
            record.freq,
            record.field_mask,
            wide,
        ));
        Ok(head + tail)
    } else {
        if record.field_mask > 0xFFFF_FFFF {
            return Err(EncodeError::MaskTooWide);
        }
        Ok(qint_encode3(&mut buffer.0, delta as u32, record.freq, record.field_mask as u32))
    }
}

/// Reads the record of delta, frequency and field mask at `pos`. The
/// record passes where its mask shares a field with `filter`.
pub fn decode_freqs_fields<'a>(
    src: &[u8],
    pos: usize,
    base_id: u64,
    wide: bool,
    filter: u128,
) -> (r: Result<(bool, RSIndexResult<'a>, usize), DecodeError>)
    ensures
        agrees(r, freqs_fields_read(src@, pos as int, base_id, wide, filter)),
{
    proof {
        assert(src@.len() == src.len());
    }
    if wide {
        let (delta, freq, p) = match qint_decode2(src, pos) {
            Ok(x) => x,
            Err(e) => { return Err(e); },
        };
        let id: u64 = match advance(base_id, delta as u64) {
            Ok(x) => x,
            Err(e) => { return Err(e); },
        };
        let (mask, end) = match read_varint_field_mask(src, p) {
            Ok(x) => x,
            Err(e) => { return Err(e); },
        };
        Ok(
            (
                mask & filter != 0,
                RSIndexResult {
                    doc_id: id,
                    field_mask: mask,
                    freq,
                    data: RSResultData::Term(RSOffsetVector::Empty),
                },
                end,
            ),
        )
    } else {
        let (delta, freq, mask, end) = match qint_decode3(src, pos) {
            Ok(x) => x,
            Err(e) => { return Err(e); },
        };
        let id: u64 = match advance(base_id, delta as u64) {
            Ok(x) => x,
            Err(e) => { return Err(e); },
        };
        Ok(
            (
                (mask as u128) & filter != 0,
                RSIndexResult {
                    doc_id: id,
                    field_mask: mask as u128,
                    freq,
                    data: RSResultData::Term(RSOffsetVector::Empty),
                },
                end,
            ),
        )
    }
}

/// Reads the first record of delta, frequency and field mask of `buffer`.
/// The record passes where its mask holds the first field.
pub fn read_freqs_flags<'a>(buffer: &[u8], base_id: u64, wide: bool) -> (r: Result<
    (bool, RSIndexResult<'a>),
    DecodeError,
>)
    ensures
        agrees_first(r, freqs_fields_read(buffer@, 0, base_id, wide, 1)),
{
    match decode_freqs_fields(buffer, 0, base_id, wide, 1) {
        Ok((matched, record, _)) => Ok((matched, record)),
        Err(e) => Err(e),
    }
}

/// Appends the delta and the field mask of `record` to `buffer` and
/// returns the number of bytes written. A delta of more than 32 bits is
/// refused, and in the narrow layout a field mask of more than 32 bits;
/// the buffer is then left as it was.
pub fn encode_fields_only(
    buffer: &mut TestBuffer,
    record: &RSIndexResult<'_>,
    delta: u64,
    wide: bool,
) -> (r: Result<usize, EncodeError>)
    ensures
        if delta > max32() {
            &&& r == Err::<usize, EncodeError>(EncodeError::DeltaTooLarge)
            &&& final(buffer).0@ == old(buffer).0@
        } else if !wide && record.field_mask > max32() {
            &&& r == Err::<usize, EncodeError>(EncodeError::MaskTooWide)
            &&& final(buffer).0@ == old(buffer).0@
        } else {
            &&& r == Ok::<usize, EncodeError>(
                fields_only_bytes(delta as nat, record.field_mask, wide).len() as usize,
            )
            &&& final(buffer).0@ == old(buffer).0@ + fields_only_bytes(
                delta as nat,
                record.field_mask,
                wide,
            )
        },
{
    if delta > 0xFFFF_FFFF {
        return Err(EncodeError::DeltaTooLarge);
    }
    if wide {
        let head: usize = write_varint(&mut buffer.0, delta as u32);
        let tail: usize = write_varint_field_mask(&mut buffer.0, record.field_mask);
        assert(buffer.0@ =~= old(buffer).0@ + fields_only_bytes(
            delta as nat,
            record.field_mask,
            wide,
        ));
        Ok(head + tail)
    } else {
        if record.field_mask > 0xFFFF_FFFF {
            return Err(EncodeError::MaskTooWide);
        }
        Ok(qint_encode2(&mut buffer.0, delta as u32, record.field_mask as u32))
    }
}

/// Reads the record of delta and field mask at `pos`. The record passes
/// where its mask shares a field with `filter`.
pub fn decode_fields_only<'a>(
    src: &[u8],
    pos: usize,
    base_id: u64,
    wide: bool,
    filter: u128,
) -> (r: Result<(bool, RSIndexResult<'a>, usize), DecodeError>)
    ensures
        agrees(r, fields_only_read(src@, pos as int, base_id, wide, filter)),
{
    proof {
        assert(src@.len() == src.len());
    }
    if wide {
        let (delta, p) = match read_varint(src, pos) {
            Ok(x) => x,
            Err(e) => { return Err(e); },
        };
        let id: u64 = match advance(base_id, delta as u64) {
            Ok(x) => x,
            Err(e) => { return Err(e); },
        };
        let (mask, end) = match read_varint_field_mask(src, p) {
            Ok(x) => x,
            Err(e) => { return Err(e); },
        };
        Ok(
            (
                mask & filter != 0,
                RSIndexResult {
                    doc_id: id,
                    field_mask: mask,
                    freq: 1,
                    data: RSResultData::Term(RSOffsetVector::Empty),
                },
                end,
            ),
        )
    } else {
        let (delta, mask, end) = match qint_decode2(src, pos) {
            Ok(x) => x,
            Err(e) => { return Err(e); },
        };
        let id: u64 = match advance(base_id, delta as u64) {
            Ok(x) => x,
            Err(e) => { return Err(e); },
        };
        Ok(
            (
                (mask as u128) & filter != 0,
                RSIndexResult {
                    doc_id: id,
                    field_mask: mask as u128,
                    freq: 0,
                    data: RSResultData::Term(RSOffsetVector::Empty),
                },
                end,
            ),
        )
    }
}

/// Reads the first record of delta and field mask of `buffer`. The record
/// passes where its mask holds the first field.
pub fn read_flags<'a>(buffer: &[u8], base_id: u64, wide: bool) -> (r: Result<
    (bool, RSIndexResult<'a>),
    DecodeError,
>)
    ensures
        agrees_first(r, fields_only_read(buffer@, 0, base_id, wide, 1)),
{
    match decode_fields_only(buffer, 0, base_id, wide, 1) {
        Ok((matched, record, _)) => Ok((matched, record)),
        Err(e) => Err(e),
    }
}

/// Appends the delta to `buffer` and returns the number of bytes written;
/// nothing of `record` is written. A delta of more than 32 bits is refused,
/// and the buffer is left as it was.
pub fn encode_doc_ids_only(buffer: &mut TestBuffer, record: &RSIndexResult<'_>, delta: u64) -> (r:
    Result<usize, EncodeError>)
    ensures
        if delta <= max32() {
            &&& r == Ok::<usize, EncodeError>(doc_ids_only_bytes(delta as nat).len() as usize)
            &&& final(buffer).0@ == old(buffer).0@ + doc_ids_only_bytes(delta as nat)
        } else {
            &&& r == Err::<usize, EncodeError>(EncodeError::DeltaTooLarge)
            &&& final(buffer).0@ == old(buffer).0@
        },
{
    if delta > 0xFFFF_FFFF {
        return Err(EncodeError::DeltaTooLarge);
    }
    Ok(write_varint(&mut buffer.0, delta as u32))
}

/// Reads the record of a delta alone at `pos`. Every record passes.
pub fn decode_doc_ids_only<'a>(src: &[u8], pos: usize, base_id: u64) -> (r: Result<
    (bool, RSIndexResult<'a>, usize),
    DecodeError,
>)
    ensures
        agrees(r, doc_ids_only_read(src@, pos as int, base_id)),
{
    proof {
        assert(src@.len() == src.len());
    }
    let (delta, end) = match read_varint(src, pos) {
        Ok(x) => x,
        Err(e) => { return Err(e); },
    };
    let id: u64 = match advance(base_id, delta as u64) {
        Ok(x) => x,
        Err(e) => { return Err(e); },
    };
    Ok(
        (
            true,
            RSIndexResult {
                doc_id: id,
                field_mask: 0,
                freq: 1,
                data: RSResultData::Term(RSOffsetVector::Empty),
            },
            end,
        ),
    )
}

/// Reads the first record of a delta alone of `buffer`.
pub fn read_doc_ids_only<'a>(buffer: &[u8], base_id: u64) -> (r: Result<
    (bool, RSIndexResult<'a>),
    DecodeError,
>)
    ensures
        agrees_first(r, doc_ids_only_read(buffer@, 0, base_id)),
{
    match decode_doc_ids_only(buffer, 0, base_id) {
        Ok((matched, record, _)) => Ok((matched, record)),
        Err(e) => Err(e),
    }
}

} // verus!
