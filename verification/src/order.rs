//! Order keys of single-precision numbers.
//!
//! A number is given by its bit pattern: a sign bit, an exponent of eight bits
//! and a fraction of 23 bits. Its order key is an integer that compares as the
//! number does.

use vstd::arithmetic::power2::{lemma_pow2_pos, lemma_pow2_unfold, pow2};
use vstd::prelude::*;

verus! {

/// The key of zero.
pub const ZERO_KEY: u64 = 0x8000_0000;

/// The key of positive infinity.
pub const INFINITY_KEY: u64 = 0xFF80_0000;

/// The bits of an infinity, without the sign.
pub const INFINITE: u32 = 0x7F80_0000;

/// The bits without the sign.
pub open spec fn magnitude(bits: u32) -> int {
    bits as int % 0x8000_0000
}

/// The sign bit is set.
pub open spec fn is_negative(bits: u32) -> bool {
    bits >= 0x8000_0000
}

/// The bits are those of no number.
pub open spec fn is_nan(bits: u32) -> bool {
    magnitude(bits) > INFINITE
}

/// The absolute value of a finite number in units of the smallest positive
/// one. The bits of infinity stand for the next value after the finite ones.
pub open spec fn absolute(magnitude: int) -> int {
    let exponent = magnitude / 0x80_0000;
    let fraction = magnitude % 0x80_0000;
    if exponent == 0 {
        fraction
    } else {
        (0x80_0000 + fraction) * pow2((exponent - 1) as nat)
    }
}

/// The value of a number in units of the smallest positive one.
pub open spec fn value(bits: u32) -> int {
    if is_negative(bits) {
        -absolute(magnitude(bits))
    } else {
        absolute(magnitude(bits))
    }
}

/// The order key of a number: both zeros have the same.
pub open spec fn key_of(bits: u32) -> u64 {
    if is_negative(bits) {
        (ZERO_KEY - magnitude(bits)) as u64
    } else {
        (ZERO_KEY + magnitude(bits)) as u64
    }
}

/// The order key in the total order of bit patterns: negative zero comes before
/// positive zero, and what is no number comes at either end.
pub open spec fn total_key_of(bits: u32) -> u64 {
    if is_negative(bits) {
        (ZERO_KEY - 1 - magnitude(bits)) as u64
    } else {
        (ZERO_KEY + magnitude(bits)) as u64
    }
}

proof fn lemma_absolute_next(m: int)
    requires
        0 <= m,
    ensures
        absolute(m) < absolute(m + 1),
{
    let e = m / 0x80_0000;
    let f = m % 0x80_0000;
    if f < 0x80_0000 - 1 {
        assert((m + 1) / 0x80_0000 == e);
        assert((m + 1) % 0x80_0000 == f + 1);
        if e > 0 {
            lemma_pow2_pos((e - 1) as nat);
            let p = pow2((e - 1) as nat) as int;
            assert((0x80_0000 + f) * p < (0x80_0000 + f + 1) * p) by (nonlinear_arith)
                requires
                    p > 0,
            ;
        }
    } else {
        assert((m + 1) / 0x80_0000 == e + 1);
        assert((m + 1) % 0x80_0000 == 0);
        if e > 0 {
            lemma_pow2_pos((e - 1) as nat);
            lemma_pow2_unfold(e as nat);
            let p = pow2((e - 1) as nat) as int;
            assert(pow2(e as nat) == 2 * p);
            assert((0x80_0000 + f) * p < 0x80_0000 * (2 * p)) by (nonlinear_arith)
                requires
                    p > 0,
                    f == 0x80_0000 - 1,
            ;
        } else {
            vstd::arithmetic::power2::lemma2_to64();
        }
    }
}

proof fn lemma_absolute_monotone(a: int, b: int)
    requires
        0 <= a < b,
    ensures
        absolute(a) < absolute(b),
    decreases b - a,
{
    lemma_absolute_next(b - 1);
    if a < b - 1 {
        lemma_absolute_monotone(a, b - 1);
    }
}

/// Keys compare as the numbers do.
pub proof fn lemma_key_order(a: u32, b: u32)
    ensures
        key_of(a) < key_of(b) <==> value(a) < value(b),
        key_of(a) == key_of(b) <==> value(a) == value(b),
{
    let x = magnitude(a);
    let y = magnitude(b);
    if x < y {
        lemma_absolute_monotone(x, y);
    }
    if y < x {
        lemma_absolute_monotone(y, x);
    }
    if x > 0 {
        lemma_absolute_monotone(0, x);
    }
    if y > 0 {
        lemma_absolute_monotone(0, y);
    }
    assert(absolute(0) == 0);
}

/// The total order refines the order of the numbers, and different bits have
/// different keys in it.
pub proof fn lemma_total_key_order(a: u32, b: u32)
    ensures
        value(a) < value(b) ==> total_key_of(a) < total_key_of(b),
        total_key_of(a) == total_key_of(b) <==> a == b,
{
    lemma_key_order(a, b);
}

/// Computes the order key of a number. There is none for bits of no number.
pub fn key(bits: u32) -> (k: Option<u64>)
    ensures
        k == if is_nan(bits) {
            None
        } else {
            Some(key_of(bits))
        },
{
    let m: u32 = bits % 0x8000_0000;
    if m > INFINITE {
        None
    } else if bits >= 0x8000_0000 {
        Some(ZERO_KEY - m as u64)
    } else {
        Some(ZERO_KEY + m as u64)
    }
}

/// Computes the order key of a bit pattern in the total order.
pub fn total_key(bits: u32) -> (k: u64)
    ensures
        k == total_key_of(bits),
{
    let m: u32 = bits % 0x8000_0000;
    if bits >= 0x8000_0000 {
        ZERO_KEY - 1 - m as u64
    } else {
        ZERO_KEY + m as u64
    }
}

/// Computes the bits of the number with a given key; zero is positive.
pub fn bits_of_key(k: u64) -> (bits: u32)
    requires
        0x80_0000 <= k <= INFINITY_KEY,
    ensures
        key_of(bits) == k,
        !is_nan(bits),
{
    if k >= ZERO_KEY {
        (k - ZERO_KEY) as u32
    } else {
        (0x8000_0000 + (ZERO_KEY - k)) as u32
    }
}

/// Computes the bit pattern with a given key in the total order.
pub fn bits_of_total_key(k: u64) -> (bits: u32)
    requires
        k <= u32::MAX,
    ensures
        total_key_of(bits) == k,
{
    if k >= ZERO_KEY {
        (k - ZERO_KEY) as u32
    } else {
        (0x8000_0000 + (ZERO_KEY - 1 - k)) as u32
    }
}

} // verus!
