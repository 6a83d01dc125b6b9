//! The range filter of the numeric decoder.
//!
//! Numbers are compared on the bits of their 64-bit floats: apart from the
//! sign, a larger magnitude has larger bits, and the infinities lie beyond
//! every finite number. What is not a number lies in no range.

use vstd::prelude::*;
use crate::classify::{exponent, fraction, magnitude_bits};

verus! {

/// A range of numbers, each bound given by the bits of a 64-bit float and
/// taken in or left out.
#[derive(Clone, Copy, Debug, PartialEq, Eq, Structural)]
pub struct NumericFilter {
    /// The lower bound.
    pub min: u64,
    /// The upper bound.
    pub max: u64,
    /// Whether the lower bound itself is in the range.
    pub min_inclusive: bool,
    /// Whether the upper bound itself is in the range.
    pub max_inclusive: bool,
}

/// Whether `bits` are those of no number.
pub open spec fn is_nan(bits: u64) -> bool {
    exponent(bits) == 2047 && fraction(bits) != 0
}

/// An integer that orders the numbers as their values do: the magnitude
/// bits, negated for a negative number. Both zeros have the key 0.
pub open spec fn order_key(bits: u64) -> int {
    if bits >= 0x8000_0000_0000_0000 {
        -(magnitude_bits(bits) as int)
    } else {
        magnitude_bits(bits) as int
    }
}

/// Whether the number with the bits `bits` lies in the range of `filter`.
pub open spec fn in_range(filter: NumericFilter, bits: u64) -> bool {
    &&& !is_nan(bits) && !is_nan(filter.min) && !is_nan(filter.max)
    &&& order_key(filter.min) < order_key(bits) || (filter.min_inclusive && order_key(filter.min)
        == order_key(bits))
    &&& order_key(bits) < order_key(filter.max) || (filter.max_inclusive && order_key(bits)
        == order_key(filter.max))
}

/// Whether a record with the number `bits` passes: always without a
/// filter, else where the number lies in its range.
pub open spec fn passes(filter: Option<NumericFilter>, bits: u64) -> bool {
    match filter {
        None => true,
        Some(f) => in_range(f, bits),
    }
}

fn nan(bits: u64) -> (r: bool)
    ensures
        r == is_nan(bits),
{
    let magnitude: u64 = bits % 0x8000_0000_0000_0000;
    magnitude / 0x10_0000_0000_0000 == 2047 && magnitude % 0x10_0000_0000_0000 != 0
}

fn key(bits: u64) -> (r: i128)
    ensures
        r == order_key(bits),
{
    let magnitude: i128 = (bits % 0x8000_0000_0000_0000) as i128;
    if bits >= 0x8000_0000_0000_0000 {
        -magnitude
    } else {
        magnitude
    }
}

impl NumericFilter {
    /// Whether the number with the bits `bits` lies in the range.
    pub fn contains(&self, bits: u64) -> (r: bool)
        ensures
            r == in_range(*self, bits),
    {
        if nan(bits) || nan(self.min) || nan(self.max) {
            return false;
        }
        let k: i128 = key(bits);
        let low: i128 = key(self.min);
        let high: i128 = key(self.max);
        (low < k || (self.min_inclusive && low == k)) && (k < high || (self.max_inclusive && k
            == high))
    }
}

} // verus!
