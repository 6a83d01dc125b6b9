//! From the bits of a 64-bit IEEE-754 number to the form in which the
//! numeric codec writes it.
//!
//! A number is taken, in this order, for a whole number whose magnitude
//! fits 64 bits, for an infinity, for a number that a 32-bit float holds
//! exactly, and else for a 64-bit float. All of it is decided on the sign
//! bit, the eleven exponent bits and the 52 fraction bits.

use vstd::arithmetic::div_mod::{lemma_breakdown, lemma_div_denominator};
use vstd::prelude::*;
use crate::numeric::NumericValue;

verus! {

/// Two to the power `n`.
pub open spec fn pow2(n: nat) -> nat
    decreases n,
{
    if n == 0 {
        1
    } else {
        2 * pow2((n - 1) as nat)
    }
}

/// The bits without the sign bit: those of the magnitude.
pub open spec fn magnitude_bits(bits: u64) -> nat {
    (bits % 0x8000_0000_0000_0000) as nat
}

/// The biased exponent.
pub open spec fn exponent(bits: u64) -> nat {
    magnitude_bits(bits) / 0x10_0000_0000_0000
}

/// The fraction bits.
pub open spec fn fraction(bits: u64) -> nat {
    magnitude_bits(bits) % 0x10_0000_0000_0000
}

/// The fraction with the leading one of a normal number: the magnitude is
/// this times two to the power of the exponent less 1075.
pub open spec fn significand(bits: u64) -> nat {
    0x10_0000_0000_0000 + fraction(bits)
}

/// The form in which the number with the bits `bits` is written.
pub open spec fn classified(bits: u64) -> NumericValue {
    let negative = bits >= 0x8000_0000_0000_0000;
    let e = exponent(bits);
    let f = fraction(bits);
    let sig = significand(bits);
    if magnitude_bits(bits) == 0 {
        NumericValue::Int { negative: false, magnitude: 0 }
    } else if 1023 <= e <= 1075 && sig % pow2((1075 - e) as nat) == 0 {
        NumericValue::Int { negative, magnitude: (sig / pow2((1075 - e) as nat)) as u64 }
    } else if 1075 < e <= 1086 {
        NumericValue::Int { negative, magnitude: (sig * pow2((e - 1075) as nat)) as u64 }
    } else if e == 2047 && f == 0 {
        NumericValue::Infinite { negative }
    } else if 897 <= e <= 1150 && f % 0x2000_0000 == 0 {
        NumericValue::Single { negative, bits: ((e - 896) * 0x80_0000 + f / 0x2000_0000) as u32 }
    } else if 874 <= e <= 896 && sig % pow2((926 - e) as nat) == 0 {
        NumericValue::Single { negative, bits: (sig / pow2((926 - e) as nat)) as u32 }
    } else {
        NumericValue::Double { negative, bits: magnitude_bits(bits) as u64 }
    }
}

proof fn lemma_pow2_positive(n: nat)
    ensures
        pow2(n) > 0,
    decreases n,
{
    if n > 0 {
        lemma_pow2_positive((n - 1) as nat);
    }
}

/// Divides `x` by two to the power `k` and says whether that leaves no
/// remainder.
fn halve(x: u64, k: u8) -> (r: (u64, bool))
    ensures
        r.0 == x as nat / pow2(k as nat),
        r.1 == (x as nat % pow2(k as nat) == 0),
{
    let mut q: u64 = x;
    let mut exact: bool = true;
    let mut i: u8 = 0;
    assert(pow2(0) == 1);
    while i < k
        invariant
            i <= k,
            q == x as nat / pow2(i as nat),
            exact == (x as nat % pow2(i as nat) == 0),
        decreases k - i,
    {
        proof {
            let p = pow2(i as nat) as int;
            lemma_pow2_positive(i as nat);
            lemma_div_denominator(x as int, p, 2);
            lemma_breakdown(x as int, p, 2);
            assert(pow2((i + 1) as nat) == p * 2);
            assert(q % 2 == 0 || q % 2 == 1);
            assert(q % 2 == 1 ==> p * ((q as int) % 2) == p);
            assert(q % 2 == 0 ==> p * ((q as int) % 2) == 0);
        }
        exact = exact && q % 2 == 0;
        q = q / 2;
        i = i + 1;
    }
    (q, exact)
}

/// Multiplies a significand by two to the power `k`, for `k` up to eleven.
fn double(x: u64, k: u8) -> (r: u64)
    requires
        x < 0x20_0000_0000_0000,
        k <= 11,
    ensures
        r == x * pow2(k as nat),
{
    let mut p: u64 = 1;
    let mut i: u8 = 0;
    proof {
        reveal_with_fuel(pow2, 13);
    }
    while i < k
        invariant
            i <= k <= 11,
            p == pow2(i as nat),
            p <= 2048,
        decreases k - i,
    {
        proof {
            reveal_with_fuel(pow2, 13);
            assert(i == 0 || i == 1 || i == 2 || i == 3 || i == 4 || i == 5 || i == 6 || i == 7
                || i == 8 || i == 9 || i == 10);
        }
        p = p * 2;
        i = i + 1;
    }
    assert(x * p <= 0x1F_FFFF_FFFF_FFFF * 2048) by (nonlinear_arith)
        requires
            x < 0x20_0000_0000_0000,
            p <= 2048,
    ;
    x * p
}

/// Sorts the number with the bits `bits` into the form in which it is
/// written.
pub fn classify(bits: u64) -> (v: NumericValue)
    ensures
        v == classified(bits),
{
    let negative: bool = bits >= 0x8000_0000_0000_0000;
    let abs: u64 = bits % 0x8000_0000_0000_0000;
    let e: u64 = abs / 0x10_0000_0000_0000;
    let f: u64 = abs % 0x10_0000_0000_0000;
    let sig: u64 = 0x10_0000_0000_0000 + f;
    if abs == 0 {
        return NumericValue::Int { negative: false, magnitude: 0 };
    }
    if 1023 <= e && e <= 1075 {
        let (q, exact) = halve(sig, (1075 - e) as u8);
        if exact {
            return NumericValue::Int { negative, magnitude: q };
        }
    } else if 1075 < e && e <= 1086 {
        return NumericValue::Int { negative, magnitude: double(sig, (e - 1075) as u8) };
    }
    if e == 2047 && f == 0 {
        return NumericValue::Infinite { negative };
    }
    if 897 <= e && e <= 1150 && f % 0x2000_0000 == 0 {
        return NumericValue::Single {
            negative,
            bits: ((e - 896) * 0x80_0000 + f / 0x2000_0000) as u32,
        };
    }
    if 874 <= e && e <= 896 {
        let (q, exact) = halve(sig, (926 - e) as u8);
        if exact {
            proof {
                // thirty halvings at least bring 53 bits down to 23
                lemma_exact_quotient(sig as nat, (926 - e) as nat);
            }
            return NumericValue::Single { negative, bits: q as u32 };
        }
    }
    NumericValue::Double { negative, bits: abs }
}

proof fn lemma_pow2_sum(a: nat, b: nat)
    ensures
        pow2(a + b) == pow2(a) * pow2(b),
    decreases a,
{
    if a > 0 {
        lemma_pow2_sum((a - 1) as nat, b);
        assert(pow2(a + b) == 2 * pow2((a - 1 + b) as nat));
        assert(2 * (pow2((a - 1) as nat) * pow2(b)) == (2 * pow2((a - 1) as nat)) * pow2(b))
            by (nonlinear_arith);
    } else {
        assert(pow2(a) * pow2(b) == pow2(b)) by (nonlinear_arith)
            requires
                pow2(a) == 1,
        ;
    }
}

/// The sign bit of a 64-bit float.
pub open spec fn sign_bit(negative: bool) -> nat {
    if negative {
        0x8000_0000_0000_0000
    } else {
        0
    }
}

/// The number of doublings that bring `x` up to 53 bits; none for zero.
pub open spec fn raise_count(x: nat) -> nat
    decreases 0x20_0000_0000_0000 - x,
{
    if x == 0 || x >= 0x10_0000_0000_0000 {
        0
    } else {
        1 + raise_count(2 * x)
    }
}

/// The number of halvings that bring `x` down to 53 bits.
pub open spec fn lower_count(x: nat) -> nat
    decreases x,
{
    if x < 0x20_0000_0000_0000 {
        0
    } else {
        1 + lower_count(x / 2)
    }
}

/// The bits of the 64-bit float with the given sign, biased exponent and
/// significand of 53 bits.
pub open spec fn packed(negative: bool, e: int, sig: nat) -> u64 {
    (sign_bit(negative) + e * 0x10_0000_0000_0000 + (sig - 0x10_0000_0000_0000)) as u64
}

/// Whether a quotient `q` with the remainder `r` under the divisor `p` is
/// rounded up: where more than half is left, or exactly half and `q` is
/// odd.
pub open spec fn rounds_up(q: nat, r: nat, p: nat) -> bool {
    2 * r > p || (2 * r == p && q % 2 == 1)
}

/// The bits of the 64-bit float that equals `v`. A whole number that no
/// such float holds exactly goes to the nearest one, and of two equally
/// near to the one with an even significand. The sign bit of a stored
/// float inverts the sign that goes with it.
pub open spec fn double_bits_of(v: NumericValue) -> u64 {
    match v {
        NumericValue::Int { negative, magnitude } => {
            let m = magnitude as nat;
            let p = pow2(lower_count(m));
            if m == 0 {
                sign_bit(negative) as u64
            } else if m < 0x20_0000_0000_0000 {
                packed(negative, 1075 - raise_count(m), m * pow2(raise_count(m)))
            } else if rounds_up(m / p, m % p, p) {
                packed(negative, 1075 + lower_count(m) as int, m / p + 1)
            } else {
                packed(negative, 1075 + lower_count(m) as int, m / p)
            }
        },
        NumericValue::Infinite { negative } => (sign_bit(negative) + 0x7FF0_0000_0000_0000) as u64,
        NumericValue::Single { negative, bits } => {
            let neg = negative != (bits >= 0x8000_0000);
            let e = (bits % 0x8000_0000) / 0x80_0000;
            let f = (bits % 0x80_0000) as nat;
            if e == 255 {
                (sign_bit(neg) + 0x7FF0_0000_0000_0000 + f * 0x2000_0000) as u64
            } else if e > 0 {
                (sign_bit(neg) + (e + 896) * 0x10_0000_0000_0000 + f * 0x2000_0000) as u64
            } else if f == 0 {
                sign_bit(neg) as u64
            } else {
                packed(neg, 926 - raise_count(f), f * pow2(raise_count(f)))
            }
        },
        NumericValue::Double { negative, bits } => (sign_bit(
            negative != (bits >= 0x8000_0000_0000_0000),
        ) + bits % 0x8000_0000_0000_0000) as u64,
    }
}

proof fn lemma_pow2_grows(m: nat, n: nat)
    requires
        m <= n,
    ensures
        pow2(m) <= pow2(n),
    decreases n,
{
    if m < n {
        lemma_pow2_grows(m, (n - 1) as nat);
    }
}

proof fn lemma_pow2_values()
    ensures
        pow2(11) == 0x800,
        pow2(30) == 0x4000_0000,
        pow2(52) == 0x10_0000_0000_0000,
        pow2(53) == 0x20_0000_0000_0000,
{
    reveal_with_fuel(pow2, 12);
    assert(pow2(11) == 0x800);
    lemma_pow2_sum(11, 11);
    lemma_pow2_sum(22, 8);
    lemma_pow2_sum(22, 11);
    lemma_pow2_sum(33, 11);
    lemma_pow2_sum(44, 8);
    assert(pow2(8) == 0x100);
    assert(pow2(9) == 0x200);
    lemma_pow2_sum(44, 9);
}

/// Doubles `x` until it has 53 bits. Returns what it became and how often
/// it was doubled.
fn raise(x: u64) -> (r: (u64, u64))
    requires
        0 < x < 0x20_0000_0000_0000,
    ensures
        r.1 == raise_count(x as nat),
        r.0 == x * pow2(r.1 as nat),
        0x10_0000_0000_0000 <= r.0 < 0x20_0000_0000_0000,
        r.1 <= 52,
{
    let mut y: u64 = x;
    let mut s: u64 = 0;
    assert(pow2(0) == 1);
    while y < 0x10_0000_0000_0000
        invariant
            0 < y < 0x20_0000_0000_0000,
            y == x * pow2(s as nat),
            raise_count(x as nat) == s + raise_count(y as nat),
            pow2(s as nat) <= y,
            s <= 52,
        decreases 0x20_0000_0000_0000 - y,
    {
        proof {
            lemma_pow2_values();
            if s >= 52 {
                lemma_pow2_grows(52, s as nat);
            }
            let p = pow2(s as nat);
            assert((x * p) * 2 == x * (2 * p)) by (nonlinear_arith);
            assert(p <= x * p) by (nonlinear_arith)
                requires
                    x >= 1,
            ;
        }
        y = y * 2;
        s = s + 1;
    }
    (y, s)
}

/// Counts the halvings that bring `x` down to 53 bits.
fn lower(x: u64) -> (k: u64)
    ensures
        k == lower_count(x as nat),
        k <= 11,
        x as nat / pow2(k as nat) < 0x20_0000_0000_0000,
        x >= 0x10_0000_0000_0000 ==> x as nat / pow2(k as nat) >= 0x10_0000_0000_0000,
{
    let mut cur: u64 = x;
    let mut k: u64 = 0;
    assert(pow2(0) == 1);
    while cur >= 0x20_0000_0000_0000
        invariant
            cur == x as nat / pow2(k as nat),
            lower_count(x as nat) == k + lower_count(cur as nat),
            k <= 11,
            x >= 0x10_0000_0000_0000 ==> cur >= 0x10_0000_0000_0000,
        decreases cur,
    {
        proof {
            let p = pow2(k as nat) as int;
            lemma_pow2_positive(k as nat);
            lemma_pow2_values();
            lemma_div_denominator(x as int, p, 2);
            assert(pow2((k + 1) as nat) == p * 2);
            vstd::arithmetic::div_mod::lemma_fundamental_div_mod(x as int, p);
            assert(p * (cur as int) >= p * 0x20_0000_0000_0000) by (nonlinear_arith)
                requires
                    p > 0,
                    cur >= 0x20_0000_0000_0000,
            ;
            if k >= 11 {
                lemma_pow2_grows(11, k as nat);
            }
        }
        cur = cur / 2;
        k = k + 1;
    }
    k
}

fn pack(negative: bool, e: u64, sig: u64) -> (bits: u64)
    requires
        e <= 2045,
        0x10_0000_0000_0000 <= sig <= 0x20_0000_0000_0000,
    ensures
        bits == packed(negative, e as int, sig as nat),
{
    let sign: u64 = if negative {
        0x8000_0000_0000_0000
    } else {
        0
    };
    sign + e * 0x10_0000_0000_0000 + (sig - 0x10_0000_0000_0000)
}

/// The bits of the 64-bit float that equals `value`, or that is nearest to
/// it where `value` is a whole number that no such float holds exactly.
pub fn double_bits(value: NumericValue) -> (r: u64)
    ensures
        r == double_bits_of(value),
{
    match value {
        NumericValue::Int { negative, magnitude } => {
            if magnitude == 0 {
                if negative {
                    0x8000_0000_0000_0000
                } else {
                    0
                }
            } else if magnitude < 0x20_0000_0000_0000 {
                let (sig, s) = raise(magnitude);
                pack(negative, 1075 - s, sig)
            } else {
                let k: u64 = lower(magnitude);
                let p: u64 = double(1, k as u8);
                proof {
                    lemma_pow2_positive(k as nat);
                }
                let q: u64 = magnitude / p;
                let r: u64 = magnitude % p;
                if r > p - r || (r == p - r && q % 2 == 1) {
                    pack(negative, 1075 + k, q + 1)
                } else {
                    pack(negative, 1075 + k, q)
                }
            }
        },
        NumericValue::Infinite { negative } => if negative {
            0xFFF0_0000_0000_0000
        } else {
            0x7FF0_0000_0000_0000
        },
        NumericValue::Single { negative, bits } => {
            let neg: bool = negative != (bits >= 0x8000_0000);
            let sign: u64 = if neg {
                0x8000_0000_0000_0000
            } else {
                0
            };
            let e: u64 = ((bits % 0x8000_0000) / 0x80_0000) as u64;
            let f: u64 = (bits % 0x80_0000) as u64;
            if e == 255 {
                sign + 0x7FF0_0000_0000_0000 + f * 0x2000_0000
            } else if e > 0 {
                sign + (e + 896) * 0x10_0000_0000_0000 + f * 0x2000_0000
            } else if f == 0 {
                sign
            } else {
                let (sig, s) = raise(f);
                pack(neg, 926 - s, sig)
            }
        },
        NumericValue::Double { negative, bits } => {
            let neg: bool = negative != (bits >= 0x8000_0000_0000_0000);
            let sign: u64 = if neg {
                0x8000_0000_0000_0000
            } else {
                0
            };
            sign + bits % 0x8000_0000_0000_0000
        },
    }
}

proof fn lemma_raise_count(q: nat, k: nat)
    requires
        0x10_0000_0000_0000 <= q * pow2(k) < 0x20_0000_0000_0000,
    ensures
        raise_count(q) == k,
    decreases k,
{
    if k > 0 {
        let p = pow2((k - 1) as nat);
        lemma_pow2_positive((k - 1) as nat);
        assert(q * (2 * p) == (2 * q) * p) by (nonlinear_arith);
        assert(q < 0x10_0000_0000_0000) by (nonlinear_arith)
            requires
                q * (2 * p) < 0x20_0000_0000_0000,
                p >= 1,
        ;
        assert(q > 0) by (nonlinear_arith)
            requires
                q * (2 * p) >= 0x10_0000_0000_0000,
        ;
        lemma_raise_count(2 * q, (k - 1) as nat);
    } else {
        assert(q * pow2(0) == q) by (nonlinear_arith)
            requires
                pow2(0) == 1,
        ;
    }
}

proof fn lemma_lower_count(sig: nat, k: nat)
    requires
        0x10_0000_0000_0000 <= sig < 0x20_0000_0000_0000,
    ensures
        lower_count(sig * pow2(k)) == k,
    decreases k,
{
    if k > 0 {
        let p = pow2((k - 1) as nat);
        lemma_pow2_positive((k - 1) as nat);
        assert(sig * (2 * p) == 2 * (sig * p)) by (nonlinear_arith);
        assert(sig * (2 * p) >= 0x20_0000_0000_0000) by (nonlinear_arith)
            requires
                sig >= 0x10_0000_0000_0000,
                p >= 1,
        ;
        lemma_lower_count(sig, (k - 1) as nat);
    } else {
        assert(sig * pow2(0) == sig) by (nonlinear_arith)
            requires
                pow2(0) == 1,
        ;
    }
}

proof fn lemma_whole_below(bits: u64)
    requires
        1023 <= exponent(bits) <= 1075,
        significand(bits) % pow2((1075 - exponent(bits)) as nat) == 0,
    ensures
        double_bits_of(
            NumericValue::Int {
                negative: bits >= 0x8000_0000_0000_0000,
                magnitude: (significand(bits) / pow2((1075 - exponent(bits)) as nat)) as u64,
            },
        ) == bits,
{
    let sig = significand(bits);
    let k = (1075 - exponent(bits)) as nat;
    lemma_exact_quotient(sig, k);
}

proof fn lemma_whole_above(bits: u64)
    requires
        1075 < exponent(bits) <= 1086,
    ensures
        double_bits_of(
            NumericValue::Int {
                negative: bits >= 0x8000_0000_0000_0000,
                magnitude: (significand(bits) * pow2((exponent(bits) - 1075) as nat)) as u64,
            },
        ) == bits,
{
    let sig = significand(bits);
    let k = (exponent(bits) - 1075) as nat;
    let p = pow2(k);
    let m = sig * p;
    lemma_pow2_values();
    lemma_pow2_positive(k);
    lemma_pow2_grows(k, 11);
    lemma_pow2_grows(1, k);
    assert(pow2(1) == 2) by {
        reveal_with_fuel(pow2, 2);
    }
    assert(0x20_0000_0000_0000 <= m <= 0x1F_FFFF_FFFF_FFFF * 0x800) by (nonlinear_arith)
        requires
            m == sig * p,
            2 <= p <= 0x800,
            0x10_0000_0000_0000 <= sig < 0x20_0000_0000_0000,
    ;
    lemma_lower_count(sig, k);
    vstd::arithmetic::div_mod::lemma_mod_multiples_basic(sig as int, p as int);
    vstd::arithmetic::div_mod::lemma_div_multiples_vanish(sig as int, p as int);
    assert(p * sig == sig * p) by (nonlinear_arith);
    assert(lower_count(m) == k);
    assert(m % pow2(lower_count(m)) == 0);
    assert(m / pow2(lower_count(m)) == sig);
    assert(!rounds_up(sig, 0, p));
}

proof fn lemma_exact_quotient(sig: nat, k: nat)
    requires
        0x10_0000_0000_0000 <= sig < 0x20_0000_0000_0000,
        sig % pow2(k) == 0,
    ensures
        0 < sig / pow2(k) <= sig,
        (sig / pow2(k)) * pow2(k) == sig,
        raise_count(sig / pow2(k)) == k,
        k >= 30 ==> sig / pow2(k) < 0x80_0000,
{
    let p = pow2(k);
    let m = sig / p;
    lemma_pow2_positive(k);
    vstd::arithmetic::div_mod::lemma_fundamental_div_mod(sig as int, p as int);
    assert(m * p == sig) by (nonlinear_arith)
        requires
            sig == p * m + 0,
    ;
    lemma_raise_count(m, k);
    assert(m <= sig) by (nonlinear_arith)
        requires
            m * p == sig,
            p >= 1,
    ;
    assert(m > 0) by (nonlinear_arith)
        requires
            m * p == sig,
            sig > 0,
    ;
    if k >= 30 {
        lemma_pow2_values();
        lemma_pow2_grows(30, k);
        assert(m < 0x80_0000) by (nonlinear_arith)
            requires
                m * p == sig,
                sig < 0x20_0000_0000_0000,
                p >= 0x4000_0000,
        ;
    }
}

proof fn lemma_single_below(bits: u64)
    requires
        874 <= exponent(bits) <= 896,
        significand(bits) % pow2((926 - exponent(bits)) as nat) == 0,
    ensures
        double_bits_of(
            NumericValue::Single {
                negative: bits >= 0x8000_0000_0000_0000,
                bits: (significand(bits) / pow2((926 - exponent(bits)) as nat)) as u32,
            },
        ) == bits,
{
    let sig = significand(bits);
    let k = (926 - exponent(bits)) as nat;
    let m = sig / pow2(k);
    lemma_exact_quotient(sig, k);
    let stored = m as u32;
    assert(stored == m);
    assert(stored % 0x8000_0000 == m);
    assert((stored % 0x8000_0000) / 0x80_0000 == 0);
    assert(stored % 0x80_0000 == m);
}

/// The form in which a number is written holds the number: from the form
/// of the number with the bits `bits`, the same bits are had back. The one
/// exception is negative zero, which is written as zero.
pub proof fn lemma_classified_bits(bits: u64)
    requires
        bits != 0x8000_0000_0000_0000,
    ensures
        double_bits_of(classified(bits)) == bits,
{
    let e = exponent(bits);
    let f = fraction(bits);
    let sig = significand(bits);
    if magnitude_bits(bits) == 0 {
    } else if 1023 <= e <= 1075 && sig % pow2((1075 - e) as nat) == 0 {
        lemma_whole_below(bits);
    } else if 1075 < e <= 1086 {
        lemma_whole_above(bits);
    } else if e == 2047 && f == 0 {
    } else if 897 <= e <= 1150 && f % 0x2000_0000 == 0 {
    } else if 874 <= e <= 896 && sig % pow2((926 - e) as nat) == 0 {
        lemma_single_below(bits);
    } else {
    }
}

} // verus!
