//! The arithmetic of vector components.
//!
//! Every algorithm of this library is written over a component type. An
//! application brings its own, such as single-precision numbers; `Fixed` is one
//! that needs no floating-point unit.

use vstd::prelude::*;

verus! {

/// A component type.
///
/// Values are compared by their order keys: the smaller key is the smaller
/// value. What every component type promises beyond its operations are the laws at
/// the end. They have nothing to run: where a type is not itself verified, their
/// bodies are empty.
pub trait Scalar: Copy {
    /// Nothing.
    open spec fn zero_of() -> Self {
        arbitrary()
    }

    /// The greatest value.
    open spec fn infinity_of() -> Self {
        arbitrary()
    }

    /// The value of `num / den`.
    open spec fn ratio_of(num: u64, den: u64) -> Self {
        arbitrary()
    }

    /// The sum of two values.
    open spec fn plus_of(self, other: Self) -> Self {
        arbitrary()
    }

    /// The difference of two values.
    open spec fn minus_of(self, other: Self) -> Self {
        arbitrary()
    }

    /// The product of two values.
    open spec fn times_of(self, other: Self) -> Self {
        arbitrary()
    }

    /// The quotient of two values.
    open spec fn over_of(self, other: Self) -> Self {
        arbitrary()
    }

    /// The square root of a value.
    open spec fn sqrt_of(self) -> Self {
        arbitrary()
    }

    /// The nearest whole number between 0 and 255.
    open spec fn byte_of(self) -> u8 {
        arbitrary()
    }

    /// The nearest whole number; halves go away from zero.
    open spec fn nearest_of(self) -> i64 {
        arbitrary()
    }

    /// The order key of a value.
    open spec fn key_of(self) -> u64 {
        arbitrary()
    }

    /// Nothing.
    fn zero() -> (r: Self)
        ensures
            r == Self::zero_of(),
    ;

    /// The greatest value.
    fn infinity() -> (r: Self)
        ensures
            r == Self::infinity_of(),
    ;

    /// The value of `num / den`.
    fn ratio(num: u64, den: u64) -> (r: Self)
        requires
            den > 0,
        ensures
            r == Self::ratio_of(num, den),
    ;

    /// The sum of two values.
    fn plus(self, other: Self) -> (r: Self)
        ensures
            r == self.plus_of(other),
    ;

    /// The difference of two values.
    fn minus(self, other: Self) -> (r: Self)
        ensures
            r == self.minus_of(other),
    ;

    /// The product of two values.
    fn times(self, other: Self) -> (r: Self)
        ensures
            r == self.times_of(other),
    ;

    /// The quotient of two values.
    fn over(self, other: Self) -> (r: Self)
        ensures
            r == self.over_of(other),
    ;

    /// The square root of a value.
    fn sqrt(self) -> (r: Self)
        ensures
            r == self.sqrt_of(),
    ;

    /// The nearest whole number between 0 and 255.
    fn byte(self) -> (r: u8)
        ensures
            r == self.byte_of(),
    ;

    /// The nearest whole number; halves go away from zero.
    fn nearest(self) -> (r: i64)
        ensures
            r == self.nearest_of(),
    ;

    /// The order key of a value.
    fn key(self) -> (k: u64)
        ensures
            k == self.key_of(),
    ;

    /// Zero with either sign adds nothing to zero.
    proof fn law_zero()
        ensures
            Self::zero_of().plus_of(Self::ratio_of(1, 1).times_of(Self::zero_of()))
                == Self::zero_of(),
            Self::zero_of().plus_of(
                Self::zero_of().minus_of(Self::ratio_of(1, 1)).times_of(Self::zero_of()),
            ) == Self::zero_of(),
    ;

    /// A part of one, in steps of 2^-24, is neither less than zero nor as great as
    /// one.
    proof fn law_unit(u: u64)
        requires
            u < 0x100_0000,
        ensures
            Self::ratio_of(u, 0x100_0000).key_of() >= Self::zero_of().key_of(),
            Self::ratio_of(u, 0x100_0000).key_of() < Self::ratio_of(1, 1).key_of(),
    ;
}

/// A component type whose sums are taken in a wider type `W`.
pub trait Widen<W>: Copy {
    /// The same value in the wider type.
    open spec fn widened(self) -> W {
        arbitrary()
    }

    /// The nearest value to one of the wider type.
    open spec fn narrowed(w: W) -> Self {
        arbitrary()
    }

    /// The same value in the wider type.
    fn widen(self) -> (w: W)
        ensures
            w == self.widened(),
    ;

    /// The nearest value to one of the wider type.
    fn narrow(w: W) -> (r: Self)
        ensures
            r == Self::narrowed(w),
    ;
}

/// `a` is less than `b`.
pub open spec fn less<R: Scalar>(a: R, b: R) -> bool {
    a.key_of() < b.key_of()
}

/// The whole number `n`.
pub open spec fn whole<R: Scalar>(n: u64) -> R {
    R::ratio_of(n, 1)
}

/// The greater of two values.
pub open spec fn greater_of<R: Scalar>(a: R, b: R) -> R {
    if less(a, b) {
        b
    } else {
        a
    }
}

/// Decides whether `a` is less than `b`.
pub fn is_less<R: Scalar>(a: R, b: R) -> (r: bool)
    ensures
        r == less(a, b),
{
    a.key() < b.key()
}

/// The greater of two values.
pub fn greater<R: Scalar>(a: R, b: R) -> (r: R)
    ensures
        r == greater_of(a, b),
{
    if is_less(a, b) {
        b
    } else {
        a
    }
}

/// The units of a fixed-point number that make one.
pub const ONE: i128 = 0x1_0000;

/// A fixed-point number with sixteen binary places. Sums, products and
/// quotients that do not fit wrap around.
#[derive(Clone, Copy, Debug, PartialEq, Eq, Structural)]
pub struct Fixed {
    pub raw: i64,
}

/// The quotient, rounded towards zero.
pub open spec fn toward_zero(a: int, b: int) -> int
    recommends
        b != 0,
{
    if (a >= 0) == (b > 0) {
        (if a >= 0 {
            a
        } else {
            -a
        }) / (if b > 0 {
            b
        } else {
            -b
        })
    } else {
        -((if a >= 0 {
            a
        } else {
            -a
        }) / (if b > 0 {
            b
        } else {
            -b
        }))
    }
}

/// The greatest whole number whose square is at most `x`.
pub open spec fn root(x: nat) -> nat {
    choose|r: nat| is_root(r, x)
}

/// `r` is the greatest whole number whose square is at most `x`.
pub open spec fn is_root(r: nat, x: nat) -> bool {
    r * r <= x < (r + 1) * (r + 1)
}

pub proof fn lemma_root_unique(r: nat, s: nat, x: nat)
    requires
        is_root(r, x),
        is_root(s, x),
    ensures
        r == s,
{
    if r < s {
        assert((r + 1) * (r + 1) <= s * s) by (nonlinear_arith)
            requires
                r < s,
        ;
    }
    if s < r {
        assert((s + 1) * (s + 1) <= r * r) by (nonlinear_arith)
            requires
                s < r,
        ;
    }
}

/// Computes the square root of a whole number.
pub fn square_root(x: u64) -> (r: u64)
    ensures
        r == root(x as nat),
        r < 0x1_0000_0000,
{
    let mut low: u64 = 0;
    let mut high: u64 = 0x1_0000_0000;
    assert(high * high > x) by (nonlinear_arith)
        requires
            high == 0x1_0000_0000,
            x <= 0xFFFF_FFFF_FFFF_FFFFu64,
    ;
    while high - low > 1
        invariant
            low < high <= 0x1_0000_0000,
            low * low <= x,
            x < high * high,
        decreases high - low,
    {
        let mid: u64 = low + (high - low) / 2;
        assert(mid * mid <= 0xFFFF_FFFF_FFFF_FFFFu64) by (nonlinear_arith)
            requires
                mid < 0x1_0000_0000,
        ;
        if mid * mid <= x {
            low = mid;
        } else {
            high = mid;
        }
    }
    proof {
        assert(is_root(low as nat, x as nat));
        lemma_root_unique(low as nat, root(x as nat), x as nat);
    }
    low
}

/// Divides, rounding towards zero.
fn divide(a: i128, b: i128) -> (q: i128)
    requires
        b != 0,
        -0x4000_0000_0000_0000_0000_0000_0000_0000 <= a
            <= 0x4000_0000_0000_0000_0000_0000_0000_0000,
        -0x4000_0000_0000_0000_0000_0000_0000_0000 <= b
            <= 0x4000_0000_0000_0000_0000_0000_0000_0000,
    ensures
        q == toward_zero(a as int, b as int),
{
    let x: i128 = if a >= 0 {
        a
    } else {
        -a
    };
    let y: i128 = if b > 0 {
        b
    } else {
        -b
    };
    let z: i128 = x / y;
    assert(0 <= z <= x) by (nonlinear_arith)
        requires
            x >= 0,
            y > 0,
            z == x as int / y as int,
    ;
    if (a >= 0) == (b > 0) {
        z
    } else {
        -z
    }
}

impl Scalar for Fixed {
    open spec fn zero_of() -> Fixed {
        Fixed { raw: 0 }
    }

    open spec fn infinity_of() -> Fixed {
        Fixed { raw: i64::MAX }
    }

    open spec fn ratio_of(num: u64, den: u64) -> Fixed {
        Fixed { raw: toward_zero(num * ONE, den as int) as i64 }
    }

    open spec fn plus_of(self, other: Fixed) -> Fixed {
        Fixed { raw: self.raw.wrapping_add(other.raw) }
    }

    open spec fn minus_of(self, other: Fixed) -> Fixed {
        Fixed { raw: self.raw.wrapping_sub(other.raw) }
    }

    open spec fn times_of(self, other: Fixed) -> Fixed {
        Fixed { raw: toward_zero(self.raw * other.raw, ONE as int) as i64 }
    }

    open spec fn over_of(self, other: Fixed) -> Fixed {
        if other.raw == 0 {
            Fixed { raw: 0 }
        } else {
            Fixed { raw: toward_zero(self.raw * ONE, other.raw as int) as i64 }
        }
    }

    open spec fn sqrt_of(self) -> Fixed {
        if self.raw <= 0 {
            Fixed { raw: 0 }
        } else {
            Fixed { raw: (root(self.raw as nat) * 0x100) as i64 }
        }
    }

    open spec fn byte_of(self) -> u8 {
        let near = (self.raw + 0x8000) / ONE as int;
        if near <= 0 {
            0
        } else if near >= 255 {
            255
        } else {
            near as u8
        }
    }

    open spec fn nearest_of(self) -> i64 {
        toward_zero(
            if self.raw >= 0 {
                self.raw + 0x8000
            } else {
                self.raw - 0x8000
            },
            ONE as int,
        ) as i64
    }

    open spec fn key_of(self) -> u64 {
        (self.raw + 0x8000_0000_0000_0000) as u64
    }

    fn zero() -> (r: Fixed) {
        Fixed { raw: 0 }
    }

    fn infinity() -> (r: Fixed) {
        Fixed { raw: i64::MAX }
    }

    fn ratio(num: u64, den: u64) -> (r: Fixed) {
        Fixed { raw: divide(num as i128 * ONE, den as i128) as i64 }
    }

    fn plus(self, other: Fixed) -> (r: Fixed) {
        Fixed { raw: self.raw.wrapping_add(other.raw) }
    }

    fn minus(self, other: Fixed) -> (r: Fixed) {
        Fixed { raw: self.raw.wrapping_sub(other.raw) }
    }

    fn times(self, other: Fixed) -> (r: Fixed) {
        let a: i128 = self.raw as i128;
        let b: i128 = other.raw as i128;
        assert(-0x4000_0000_0000_0000_0000_0000_0000_0000 <= a * b
            <= 0x4000_0000_0000_0000_0000_0000_0000_0000) by (nonlinear_arith)
            requires
                -0x8000_0000_0000_0000 <= a <= 0x7FFF_FFFF_FFFF_FFFF,
                -0x8000_0000_0000_0000 <= b <= 0x7FFF_FFFF_FFFF_FFFF,
        ;
        Fixed { raw: divide(a * b, ONE) as i64 }
    }

    fn over(self, other: Fixed) -> (r: Fixed) {
        if other.raw == 0 {
            Fixed { raw: 0 }
        } else {
            Fixed { raw: divide(self.raw as i128 * ONE, other.raw as i128) as i64 }
        }
    }

    fn sqrt(self) -> (r: Fixed) {
        if self.raw <= 0 {
            Fixed { raw: 0 }
        } else {
            Fixed { raw: (square_root(self.raw as u64) * 0x100) as i64 }
        }
    }

    fn byte(self) -> (r: u8) {
        let up: i128 = self.raw as i128 + 0x8000;
        if up < ONE {
            assert((self.raw + 0x8000) / ONE as int <= 0);
            0
        } else {
            let near: i128 = up / ONE;
            if near >= 255 {
                255
            } else {
                near as u8
            }
        }
    }

    fn nearest(self) -> (r: i64) {
        let raw: i128 = self.raw as i128;
        let up: i128 = if raw >= 0 {
            raw + 0x8000
        } else {
            raw - 0x8000
        };
        divide(up, ONE) as i64
    }

    fn key(self) -> (k: u64) {
        (self.raw as i128 + 0x8000_0000_0000_0000) as u64
    }

    proof fn law_zero() {
    }

    proof fn law_unit(u: u64) {
        assert(0 <= u * 65536 / 0x100_0000 < 65536);
        assert(0 <= Fixed::ratio_of(u, 0x100_0000).raw < 65536);
        assert(Fixed::ratio_of(1, 1).raw == 65536);
    }
}

impl Widen<Fixed> for Fixed {
    open spec fn widened(self) -> Fixed {
        self
    }

    open spec fn narrowed(w: Fixed) -> Fixed {
        w
    }

    fn widen(self) -> (w: Fixed) {
        self
    }

    fn narrow(w: Fixed) -> (r: Fixed) {
        w
    }
}

/// Fixed-point numbers compare by their units.
pub proof fn lemma_fixed_order(a: Fixed, b: Fixed)
    ensures
        less(a, b) <==> a.raw < b.raw,
{
}

} // verus!
