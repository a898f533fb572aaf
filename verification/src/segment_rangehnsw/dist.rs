//! Squared distance, and a deterministic generator for benchmark data.

use vstd::prelude::*;

use crate::linalg::{sq_l2, sq_l2_of};
use crate::noise::{top24, upper24, Noise};
use crate::scalar::Scalar;

verus! {

/// The squared Euclidean distance.
pub fn l2_sq<R: Scalar>(a: &[R], b: &[R]) -> (r: R)
    ensures
        r == sq_l2_of(a@, b@),
{
    sq_l2(a, b)
}

/// The state that follows `s`.
pub open spec fn lcg_step(s: u64) -> u64 {
    s.wrapping_mul(6364136223846793005).wrapping_add(1442695040888963407)
}

/// The state that `n` draws lead to from `s`, which is also the last draw.
pub open spec fn lcg_after(s: u64, n: nat) -> u64
    decreases n,
{
    if n == 0 {
        s
    } else {
        lcg_step(lcg_after(s, (n - 1) as nat))
    }
}

/// Draws can be counted on from a later state.
pub proof fn lemma_lcg_after(s: u64, a: nat, b: nat)
    ensures
        lcg_after(lcg_after(s, a), b) == lcg_after(s, a + b),
    decreases b,
{
    if b > 0 {
        lemma_lcg_after(s, a, (b - 1) as nat);
    }
}

/// Deterministic linear congruential generator.
pub struct Lcg(pub u64);

impl Lcg {
    /// A generator whose first state is a scrambled `seed`.
    pub fn new(seed: u64) -> (r: Self)
        ensures
            r.0 == seed.wrapping_mul(0x9E37_79B9_7F4A_7C15).wrapping_add(1),
    {
        Self(seed.wrapping_mul(0x9E37_79B9_7F4A_7C15).wrapping_add(1))
    }

    /// The next state, which is also the draw.
    pub fn next_u64(&mut self) -> (r: u64)
        ensures
            final(self).0 == lcg_step(old(self).0),
            r == final(self).0,
    {
        self.0 = self.0.wrapping_mul(6364136223846793005).wrapping_add(1442695040888963407);
        self.0
    }

    /// A uniform draw from [0, 1), as its numerator over 2^24.
    pub fn next_f32(&mut self) -> (r: u32)
        ensures
            final(self).0 == lcg_step(old(self).0),
            r == top24(final(self).0),
            r < 0x100_0000,
    {
        upper24(self.next_u64())
    }

    /// A sample of `noise`, from two uniform draws.
    pub fn next_gauss<R, N: Noise<R>>(&mut self, noise: &N) -> (r: R)
        ensures
            final(self).0 == lcg_after(old(self).0, 2),
            r == noise.normal_of(
                top24(lcg_after(old(self).0, 1)),
                top24(lcg_after(old(self).0, 2)),
            ),
    {
        proof {
            reveal_with_fuel(lcg_after, 3);
        }
        let u1: u32 = self.next_f32();
        let u2: u32 = self.next_f32();
        noise.normal(u1, u2)
    }
}

} // verus!
