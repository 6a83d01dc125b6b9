//! What holds of every codec: a decoder gives back what an encoder wrote,
//! and the bytes behind the delta do not depend on the delta.

use vstd::prelude::*;
use crate::classify::{classified, lemma_classified_bits};
use crate::codecs::{
    doc_ids_only_bytes, doc_ids_only_read, fields_only_bytes, fields_only_read,
    freqs_fields_bytes, freqs_fields_read, freqs_only_bytes, freqs_only_read, numeric_read,
    numeric_record, term_record, virt_record,
};
use crate::error::DecodeError;
use crate::filter::{passes, NumericFilter};
use crate::fixed::{byte_width, lemma_le_roundtrip};
use crate::numeric::{
    delta_width, lemma_numeric_roundtrip, lemma_numeric_tail, max_numeric_delta, numeric_bytes,
    NumericValue,
};
use crate::qint::{
    lemma_part_in_place, lemma_qint2_roundtrip, lemma_qint3_roundtrip, lemma_qint_tail,
    qint2_bytes,
};
use crate::result::RSIndexResult;
use crate::varint::{lemma_varint_roundtrip, max128, max32, varint_bytes};

verus! {

/// A numeric record comes back as it was written, bit for bit, for the
/// document that lies `delta` behind the base: where `s` holds at `pos`
/// the encoding of `delta` and of the number of a numeric result `r`,
/// reading there gives `r` with that document id, says that it passes
/// where there is no filter or the number lies in its range, and ends
/// behind the encoding. Left out are negative zero and the negative
/// whole numbers of magnitude up to seven: they are written as tiny
/// integers, which have no sign.
pub proof fn lemma_numeric_record_roundtrip(
    r: RSIndexResult<'_>,
    bits: u64,
    delta: nat,
    base_id: u64,
    filter: Option<NumericFilter>,
    s: Seq<u8>,
    pos: int,
)
    requires
        r == numeric_record(r.doc_id, bits),
        bits != 0x8000_0000_0000_0000,
        !(classified(bits) matches NumericValue::Int { negative: true, magnitude } && magnitude
            <= 7),
        delta <= max_numeric_delta(),
        base_id + delta <= u64::MAX,
        0 <= pos,
        pos + numeric_bytes(delta, classified(bits)).len() <= s.len(),
        s.subrange(pos, pos + numeric_bytes(delta, classified(bits)).len()) == numeric_bytes(
            delta,
            classified(bits),
        ),
    ensures
        numeric_read(s, pos, base_id, filter) == Ok::<
            (bool, RSIndexResult<'_>, int),
            DecodeError,
        >(
            (
                passes(filter, bits),
                RSIndexResult { doc_id: (base_id + delta) as u64, ..r },
                pos + numeric_bytes(delta, classified(bits)).len(),
            ),
        ),
{
    lemma_numeric_roundtrip(delta, classified(bits), s, pos);
    lemma_classified_bits(bits);
}

/// A record of delta and frequency comes back as it was written: reading
/// the encoding of `delta` and of the frequency of a virtual result `r`
/// gives `r` with the document id that lies `delta` behind the base.
pub proof fn lemma_freqs_only_roundtrip(
    r: RSIndexResult<'_>,
    delta: nat,
    base_id: u64,
    s: Seq<u8>,
    pos: int,
)
    requires
        r == virt_record(r.doc_id, r.freq),
        delta <= max32(),
        base_id + delta <= u64::MAX,
        0 <= pos,
        pos + freqs_only_bytes(delta, r.freq).len() <= s.len(),
        s.subrange(pos, pos + freqs_only_bytes(delta, r.freq).len()) == freqs_only_bytes(
            delta,
            r.freq,
        ),
    ensures
        freqs_only_read(s, pos, base_id) == Ok::<(bool, RSIndexResult<'_>, int), DecodeError>(
            (
                true,
                RSIndexResult { doc_id: (base_id + delta) as u64, ..r },
                pos + freqs_only_bytes(delta, r.freq).len(),
            ),
        ),
{
    lemma_qint2_roundtrip(delta, r.freq as nat, s, pos);
}

/// A record of delta, frequency and field mask comes back as it was
/// written, in the narrow layout (for a mask of 32 bits) and in the wide
/// one: reading the encoding of a term result `r` without offsets gives `r`
/// with the document id that lies `delta` behind the base, and says that
/// it passes exactly where its mask shares a field with the filter.
pub proof fn lemma_freqs_fields_roundtrip(
    r: RSIndexResult<'_>,
    delta: nat,
    base_id: u64,
    wide: bool,
    filter: u128,
    s: Seq<u8>,
    pos: int,
)
    requires
        r == term_record(r.doc_id, r.freq, r.field_mask),
        delta <= max32(),
        !wide ==> r.field_mask <= max32(),
        base_id + delta <= u64::MAX,
        0 <= pos,
        pos + freqs_fields_bytes(delta, r.freq, r.field_mask, wide).len() <= s.len(),
        s.subrange(pos, pos + freqs_fields_bytes(delta, r.freq, r.field_mask, wide).len())
            == freqs_fields_bytes(delta, r.freq, r.field_mask, wide),
    ensures
        freqs_fields_read(s, pos, base_id, wide, filter) == Ok::<
            (bool, RSIndexResult<'_>, int),
            DecodeError,
        >(
            (
                r.field_mask & filter != 0,
                RSIndexResult { doc_id: (base_id + delta) as u64, ..r },
                pos + freqs_fields_bytes(delta, r.freq, r.field_mask, wide).len(),
            ),
        ),
{
    if wide {
        let e = freqs_fields_bytes(delta, r.freq, r.field_mask, wide);
        let head = qint2_bytes(delta, r.freq as nat);
        let tail = varint_bytes(r.field_mask as nat);
        assert(e.subrange(0, head.len() as int) =~= head);
        assert(e.subrange(head.len() as int, head.len() as int + tail.len()) =~= tail);
        lemma_part_in_place(s, pos, e, 0, head);
        lemma_part_in_place(s, pos, e, head.len() as int, tail);
        lemma_qint2_roundtrip(delta, r.freq as nat, s, pos);
        lemma_varint_roundtrip(r.field_mask as nat, max128(), s, pos + head.len());
    } else {
        lemma_qint3_roundtrip(delta, r.freq as nat, r.field_mask as nat, s, pos);
    }
}

/// A record of delta and field mask comes back as it was written, in the
/// narrow layout (for a mask of 32 bits) and in the wide one: reading the
/// encoding of a term result `r` without offsets, whose frequency is the
/// one that the layout implies, gives `r` with the document id that lies
/// `delta` behind the base.
pub proof fn lemma_fields_only_roundtrip(
    r: RSIndexResult<'_>,
    delta: nat,
    base_id: u64,
    wide: bool,
    filter: u128,
    s: Seq<u8>,
    pos: int,
)
    requires
        r == term_record(r.doc_id, if wide { 1u32 } else { 0u32 }, r.field_mask),
        delta <= max32(),
        !wide ==> r.field_mask <= max32(),
        base_id + delta <= u64::MAX,
        0 <= pos,
        pos + fields_only_bytes(delta, r.field_mask, wide).len() <= s.len(),
        s.subrange(pos, pos + fields_only_bytes(delta, r.field_mask, wide).len())
            == fields_only_bytes(delta, r.field_mask, wide),
    ensures
        fields_only_read(s, pos, base_id, wide, filter) == Ok::<
            (bool, RSIndexResult<'_>, int),
            DecodeError,
        >(
            (
                r.field_mask & filter != 0,
                RSIndexResult { doc_id: (base_id + delta) as u64, ..r },
                pos + fields_only_bytes(delta, r.field_mask, wide).len(),
            ),
        ),
{
    if wide {
        let e = fields_only_bytes(delta, r.field_mask, wide);
        let head = varint_bytes(delta);
        let tail = varint_bytes(r.field_mask as nat);
        assert(e.subrange(0, head.len() as int) =~= head);
        assert(e.subrange(head.len() as int, head.len() as int + tail.len()) =~= tail);
        lemma_part_in_place(s, pos, e, 0, head);
        lemma_part_in_place(s, pos, e, head.len() as int, tail);
        lemma_varint_roundtrip(delta, max32(), s, pos);
        lemma_varint_roundtrip(r.field_mask as nat, max128(), s, pos + head.len());
    } else {
        lemma_qint2_roundtrip(delta, r.field_mask as nat, s, pos);
    }
}

/// A record of a delta alone comes back as it was written: reading the
/// encoding of `delta` gives the term result that occurs once, in no
/// field, for the document that lies `delta` behind the base.
pub proof fn lemma_doc_ids_only_roundtrip(
    r: RSIndexResult<'_>,
    delta: nat,
    base_id: u64,
    s: Seq<u8>,
    pos: int,
)
    requires
        r == term_record(r.doc_id, 1, 0),
        delta <= max32(),
        base_id + delta <= u64::MAX,
        0 <= pos,
        pos + doc_ids_only_bytes(delta).len() <= s.len(),
        s.subrange(pos, pos + doc_ids_only_bytes(delta).len()) == doc_ids_only_bytes(delta),
    ensures
        doc_ids_only_read(s, pos, base_id) == Ok::<(bool, RSIndexResult<'_>, int), DecodeError>(
            (
                true,
                RSIndexResult { doc_id: (base_id + delta) as u64, ..r },
                pos + doc_ids_only_bytes(delta).len(),
            ),
        ),
{
    lemma_varint_roundtrip(delta, max32(), s, pos);
}

/// The number of bytes that the delta takes in a record with a header
/// byte, the header included.
pub open spec fn headed_delta_len(delta: nat) -> int {
    1 + byte_width(delta) as int
}

/// With every codec, two encodings of one record under different deltas
/// agree in all that follows the delta.
pub proof fn lemma_rest_ignores_delta(
    d1: nat,
    d2: nat,
    v: NumericValue,
    freq: u32,
    mask: u128,
)
    ensures
        numeric_bytes(d1, v).skip(1 + delta_width(d1) as int) == numeric_bytes(d2, v).skip(
            1 + delta_width(d2) as int,
        ),
        freqs_only_bytes(d1, freq).skip(headed_delta_len(d1)) == freqs_only_bytes(d2, freq).skip(
            headed_delta_len(d2),
        ),
        forall|wide: bool|
            #![trigger freqs_fields_bytes(d1, freq, mask, wide)]
            freqs_fields_bytes(d1, freq, mask, wide).skip(headed_delta_len(d1))
                == freqs_fields_bytes(d2, freq, mask, wide).skip(headed_delta_len(d2)),
        fields_only_bytes(d1, mask, false).skip(headed_delta_len(d1)) == fields_only_bytes(
            d2,
            mask,
            false,
        ).skip(headed_delta_len(d2)),
        fields_only_bytes(d1, mask, true).skip(varint_bytes(d1).len() as int) == fields_only_bytes(
            d2,
            mask,
            true,
        ).skip(varint_bytes(d2).len() as int),
        doc_ids_only_bytes(d1).skip(varint_bytes(d1).len() as int) == doc_ids_only_bytes(d2).skip(
            varint_bytes(d2).len() as int,
        ),
{
    lemma_numeric_tail(d1, v);
    lemma_numeric_tail(d2, v);
    lemma_qint_tail(d1, freq as nat, mask as nat);
    lemma_qint_tail(d2, freq as nat, mask as nat);
    lemma_qint_tail(d1, mask as nat, 0);
    lemma_qint_tail(d2, mask as nat, 0);
    lemma_le_roundtrip(d1, byte_width(d1));
    lemma_le_roundtrip(d2, byte_width(d2));
    let m = varint_bytes(mask as nat);
    assert(freqs_fields_bytes(d1, freq, mask, true).skip(headed_delta_len(d1)) =~= qint2_bytes(
        d1,
        freq as nat,
    ).skip(headed_delta_len(d1)) + m);
    assert(freqs_fields_bytes(d2, freq, mask, true).skip(headed_delta_len(d2)) =~= qint2_bytes(
        d2,
        freq as nat,
    ).skip(headed_delta_len(d2)) + m);
    assert(fields_only_bytes(d1, mask, true).skip(varint_bytes(d1).len() as int) =~= m);
    assert(fields_only_bytes(d2, mask, true).skip(varint_bytes(d2).len() as int) =~= m);
    assert(doc_ids_only_bytes(d1).skip(varint_bytes(d1).len() as int) =~= Seq::<u8>::empty());
    assert(doc_ids_only_bytes(d2).skip(varint_bytes(d2).len() as int) =~= Seq::<u8>::empty());
}

} // verus!
