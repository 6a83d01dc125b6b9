//! The records that the fields-only codec is measured on: every pairing of
//! a fixed set of deltas with a fixed set of field masks, each with its
//! encoding.

use itertools::Itertools;
use vstd::prelude::*;
use crate::codecs::{
    encode_fields_only, fields_only_bytes, read_flags, term_record, TestBuffer,
};
use crate::fixed::{byte_width, lemma_le_roundtrip};
use crate::result::RSIndexResult;
use crate::roundtrip::lemma_fields_only_roundtrip;
use crate::varint::{lemma_varint_len, max32};

verus! {

/// One record to measure: a delta, a field mask and their encoding.
#[derive(Debug)]
pub struct TestValue {
    /// The delta to the previous document.
    pub delta: u32,
    /// The fields in which the term occurs.
    pub field_mask: u128,
    /// The record as the codec writes it.
    pub encoded: Vec<u8>,
}

/// The records to measure, for the narrow or for the wide layout.
pub struct Bencher {
    test_values: Vec<TestValue>,
    wide: bool,
}

/// The deltas that are measured.
pub open spec fn deltas() -> Seq<u32> {
    seq![0u32, 1u32, 256u32, 65536u32, 65535u32, 0xFFFF_FFFFu32]
}

/// The field masks that are measured; the wide layout adds two that the
/// narrow one cannot or need not hold.
pub open spec fn field_masks(wide: bool) -> Seq<u128> {
    if wide {
        seq![
            0u128,
            1u128,
            10u128,
            100u128,
            1_000u128,
            10_000u128,
            0xFFFF_FFFFu128,
            0xFFFF_FFFF_FFFF_FFFF_FFFF_FFFF_FFFF_FFFFu128,
        ]
    } else {
        seq![0u128, 1u128, 10u128, 100u128, 1_000u128, 10_000u128]
    }
}

/// The number of bytes of all the encodings of `values`.
pub open spec fn total_len(values: Seq<TestValue>) -> nat
    decreases values.len(),
{
    if values.len() == 0 {
        0
    } else {
        total_len(values.drop_last()) + values.last().encoded@.len()
    }
}

/// The encodings of `values`, one behind the other.
pub open spec fn all_bytes(values: Seq<TestValue>) -> Seq<u8>
    decreases values.len(),
{
    if values.len() == 0 {
        Seq::empty()
    } else {
        all_bytes(values.drop_last()) + values.last().encoded@
    }
}

/// The document that every measured record is for.
pub const DOC_ID: u64 = 100;

/// A record of delta and field mask takes two bytes at least and 24 at
/// most.
pub proof fn lemma_fields_only_len(delta: nat, mask: u128, wide: bool)
    requires
        delta <= max32(),
        wide || mask <= max32(),
    ensures
        2 <= fields_only_bytes(delta, mask, wide).len() <= 24,
{
    if wide {
        lemma_varint_len(delta);
        lemma_varint_len(mask as nat);
    } else {
        lemma_le_roundtrip(delta, byte_width(delta));
        lemma_le_roundtrip(mask as nat, byte_width(mask as nat));
    }
}

/// Calls `Itertools::cartesian_product` on the elements of `left` with those
/// of `right`, and collects what it yields. The adaptor yields every pair
/// of an element of `left` with one of `right`: for each element of `left`
/// in turn, all of `right` in order.
#[verifier::external_body]
fn cartesian_product(left: Vec<u32>, right: Vec<u128>) -> (pairs: Vec<(u32, u128)>)
    requires
        left@.len() <= 0xFFFF,
        right@.len() <= 0xFFFF,
    ensures
        pairs@.len() == left@.len() * right@.len(),
        forall|k: int|
            0 <= k < pairs@.len() ==> #[trigger] pairs@[k] == (
                left@[k / (right@.len() as int)],
                right@[k % (right@.len() as int)],
            ),
{
    left.into_iter().cartesian_product(right).collect()
}

impl Bencher {
    #[verifier::type_invariant]
    spec fn inv(self) -> bool {
        self.complete()
    }

    /// The records to measure.
    pub closed spec fn values(&self) -> Seq<TestValue> {
        self.test_values@
    }

    /// Whether the records are in the wide layout.
    pub closed spec fn is_wide(&self) -> bool {
        self.wide
    }

    /// The records are the pairings of the deltas with the field masks,
    /// delta by delta, each with the bytes that the codec writes for it.
    pub open spec fn complete(&self) -> bool {
        let n = field_masks(self.is_wide()).len() as int;
        &&& self.values().len() == deltas().len() * n
        &&& forall|k: int|
            0 <= k < self.values().len() ==> {
                &&& (#[trigger] self.values()[k]).delta == deltas()[k / n]
                &&& self.values()[k].field_mask == field_masks(self.is_wide())[k % n]
                &&& self.values()[k].encoded@ == fields_only_bytes(
                    deltas()[k / n] as nat,
                    field_masks(self.is_wide())[k % n],
                    self.is_wide(),
                )
            }
    }

    /// The records for the wide layout.
    pub fn wide() -> (b: Self)
        ensures
            b.is_wide(),
            b.complete(),
    {
        Self::new(true)
    }

    /// The records for the layout that `wide` names.
    pub fn new(wide: bool) -> (b: Self)
        ensures
            b.is_wide() == wide,
            b.complete(),
    {
        let deltas: Vec<u32> = vec![0u32, 1u32, 256u32, 65536u32, 65535u32, 0xFFFF_FFFFu32];
        let mut masks: Vec<u128> = vec![0u128, 1u128, 10u128, 100u128, 1_000u128, 10_000u128];
        if wide {
            masks.push(0xFFFF_FFFFu128);
            masks.push(0xFFFF_FFFF_FFFF_FFFF_FFFF_FFFF_FFFF_FFFFu128);
        }
        assert(deltas@ =~= self::deltas());
        assert(masks@ =~= field_masks(wide));
        let ghost n: int = masks@.len() as int;
        let pairs: Vec<(u32, u128)> = cartesian_product(deltas, masks);
        let mut test_values: Vec<TestValue> = Vec::with_capacity(pairs.len());
        let mut k: usize = 0;
        while k < pairs.len()
            invariant
                n == field_masks(wide).len(),
                6 <= n <= 8,
                pairs@.len() == 6 * n,
                k <= pairs@.len(),
                test_values@.len() == k,
                forall|i: int|
                    0 <= i < pairs@.len() ==> #[trigger] pairs@[i] == (
                        self::deltas()[i / n],
                        field_masks(wide)[i % n],
                    ),
                forall|i: int|
                    0 <= i < k ==> {
                        &&& (#[trigger] test_values@[i]).delta == self::deltas()[i / n]
                        &&& test_values@[i].field_mask == field_masks(wide)[i % n]
                        &&& test_values@[i].encoded@ == fields_only_bytes(
                            self::deltas()[i / n] as nat,
                            field_masks(wide)[i % n],
                            wide,
                        )
                    },
            decreases pairs@.len() - k,
        {
            let (delta, field_mask) = pairs[k];
            let record = RSIndexResult::term().doc_id(100).field_mask(field_mask).frequency(1);
            let mut buffer = TestBuffer::with_capacity(0);
            assert(!wide ==> field_mask <= 10_000u128);
            let written = encode_fields_only(&mut buffer, &record, delta as u64, wide);
            assert(written is Ok);
            assert(buffer.0@ =~= fields_only_bytes(delta as nat, field_mask, wide));
            test_values.push(TestValue { delta, field_mask, encoded: buffer.0 });
            k = k + 1;
        }
        Bencher { test_values, wide }
    }

    /// The number of bytes that a buffer needs to hold all the encodings.
    pub fn buffer_size(&self) -> (n: usize)
        ensures
            self.complete(),
            n == total_len(self.values()),
            n <= 24 * self.values().len(),
    {
        proof {
            use_type_invariant(self);
        }
        let ghost m: int = field_masks(self.wide).len() as int;
        assert(deltas().len() == 6 && (m == 6 || m == 8));
        let mut n: usize = 0;
        let mut k: usize = 0;
        while k < self.test_values.len()
            invariant
                self.complete(),
                m == field_masks(self.is_wide()).len(),
                6 <= m <= 8,
                self.test_values@.len() == 6 * m,
                k <= self.test_values@.len(),
                n == total_len(self.test_values@.subrange(0, k as int)),
                n <= 24 * k,
            decreases self.test_values@.len() - k,
        {
            proof {
                let v = self.values()[k as int];
                lemma_fields_only_len(
                    deltas()[k as int / m] as nat,
                    field_masks(self.is_wide())[k as int % m],
                    self.is_wide(),
                );
                assert(self.test_values@.subrange(0, k + 1).drop_last() =~= self.test_values@.subrange(
                    0,
                    k as int,
                ));
            }
            n = n + self.test_values[k].encoded.len();
            k = k + 1;
        }
        assert(self.test_values@.subrange(0, k as int) =~= self.test_values@);
        n
    }

    /// Writes every record to measure to `buffer`, one behind the other,
    /// and returns the number of bytes written.
    pub fn encode_all(&self, buffer: &mut TestBuffer) -> (n: usize)
        ensures
            self.complete(),
            final(buffer).0@ == old(buffer).0@ + all_bytes(self.values()),
            n == total_len(self.values()),
    {
        proof {
            use_type_invariant(self);
        }
        let ghost m: int = field_masks(self.wide).len() as int;
        assert(deltas().len() == 6 && (m == 6 || m == 8));
        let mut n: usize = 0;
        let mut k: usize = 0;
        while k < self.test_values.len()
            invariant
                self.complete(),
                m == field_masks(self.is_wide()).len(),
                6 <= m <= 8,
                self.test_values@.len() == 6 * m,
                k <= self.test_values@.len(),
                n == total_len(self.test_values@.subrange(0, k as int)),
                n <= 24 * k,
                buffer.0@ == old(buffer).0@ + all_bytes(self.test_values@.subrange(0, k as int)),
            decreases self.test_values@.len() - k,
        {
            let test = &self.test_values[k];
            proof {
                let v = self.values()[k as int];
                lemma_fields_only_len(
                    deltas()[k as int / m] as nat,
                    field_masks(self.is_wide())[k as int % m],
                    self.is_wide(),
                );
                assert(self.test_values@.subrange(0, k + 1).drop_last() =~= self.test_values@.subrange(
                    0,
                    k as int,
                ));
            }
            let record = RSIndexResult::term().doc_id(DOC_ID).field_mask(test.field_mask).frequency(
                1,
            );
            let ghost before = buffer.0@;
            let written = encode_fields_only(buffer, &record, test.delta as u64, self.wide);
            match written {
                Ok(w) => {
                    n = n + w;
                },
                Err(_) => {
                    assert(false);
                },
            }
            k = k + 1;
            assert(buffer.0@ =~= old(buffer).0@ + all_bytes(
                self.test_values@.subrange(0, k as int),
            ));
        }
        assert(self.test_values@.subrange(0, k as int) =~= self.test_values@);
        n
    }

    /// Reads every record to measure back from its encoding, with the
    /// measured document as the base. Each comes back as the term that was
    /// written, for the document that lies its delta behind the base, and
    /// passes where its mask holds the first field.
    pub fn decode_all<'a>(&self) -> (results: Vec<(bool, RSIndexResult<'a>)>)
        ensures
            self.complete(),
            results@.len() == self.values().len(),
            forall|k: int|
                0 <= k < results@.len() ==> #[trigger] results@[k] == (
                    self.values()[k].field_mask & 1 != 0,
                    term_record(
                        (DOC_ID + self.values()[k].delta) as u64,
                        if self.is_wide() {
                            1u32
                        } else {
                            0u32
                        },
                        self.values()[k].field_mask,
                    ),
                ),
    {
        proof {
            use_type_invariant(self);
        }
        let ghost m: int = field_masks(self.wide).len() as int;
        assert(deltas().len() == 6 && (m == 6 || m == 8));
        let mut results: Vec<(bool, RSIndexResult<'a>)> = Vec::with_capacity(
            self.test_values.len(),
        );
        let mut k: usize = 0;
        while k < self.test_values.len()
            invariant
                self.complete(),
                m == field_masks(self.is_wide()).len(),
                6 <= m <= 8,
                self.test_values@.len() == 6 * m,
                k <= self.test_values@.len(),
                results@.len() == k,
                forall|i: int|
                    0 <= i < k ==> #[trigger] results@[i] == (
                        self.values()[i].field_mask & 1 != 0,
                        term_record(
                            (DOC_ID + self.values()[i].delta) as u64,
                            if self.is_wide() {
                                1u32
                            } else {
                                0u32
                            },
                            self.values()[i].field_mask,
                        ),
                    ),
            decreases self.test_values@.len() - k,
        {
            let test = &self.test_values[k];
            let base_id: u64 = DOC_ID;
            proof {
                let r = term_record(
                    (base_id + test.delta) as u64,
                    if self.is_wide() {
                        1u32
                    } else {
                        0u32
                    },
                    test.field_mask,
                );
                lemma_fields_only_len(
                    deltas()[k as int / m] as nat,
                    field_masks(self.is_wide())[k as int % m],
                    self.is_wide(),
                );
                assert(test.encoded@.subrange(0, test.encoded@.len() as int) =~= test.encoded@);
                lemma_fields_only_roundtrip(
                    r,
                    test.delta as nat,
                    base_id,
                    self.is_wide(),
                    1,
                    test.encoded@,
                    0,
                );
            }
            match read_flags(test.encoded.as_slice(), base_id, self.wide) {
                Ok(found) => {
                    results.push(found);
                },
                Err(_) => {
                    assert(false);
                },
            }
            k = k + 1;
        }
        results
    }

    /// The records to measure.
    pub fn test_values(&self) -> (v: &Vec<TestValue>)
        ensures
            v@ == self.values(),
    {
        &self.test_values
    }

    /// Whether the records are in the wide layout.
    pub fn wide_layout(&self) -> (w: bool)
        ensures
            w == self.is_wide(),
    {
        self.wide
    }
}

impl Default for Bencher {
    /// The records for the narrow layout.
    fn default() -> (b: Self)
        ensures
            !b.is_wide(),
            b.complete(),
    {
        Bencher::new(false)
    }
}

} // verus!
