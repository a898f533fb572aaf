//! Deterministic xorshift64* generator.

use vstd::prelude::*;

use crate::noise::{top24, upper24, Noise};

verus! {

/// The state that follows `s`.
pub open spec fn rng_step(s: u64) -> u64 {
    let a = s ^ (s >> 12);
    let b = a ^ (a << 25);
    b ^ (b >> 27)
}

/// The draw that belongs to state `s`.
pub open spec fn rng_output(s: u64) -> u64 {
    s.wrapping_mul(0x2545_F491_4F6C_DD1D)
}

/// The state that `n` draws lead to from `s`.
pub open spec fn rng_after(s: u64, n: nat) -> u64
    decreases n,
{
    if n == 0 {
        s
    } else {
        rng_step(rng_after(s, (n - 1) as nat))
    }
}

/// Draw number `n` from state `s`, counted from zero.
pub open spec fn rng_draw(s: u64, n: nat) -> u64 {
    rng_output(rng_after(s, n + 1))
}

/// Draws can be counted on from a later state.
pub proof fn lemma_rng_after(s: u64, a: nat, b: nat)
    ensures
        rng_after(rng_after(s, a), b) == rng_after(s, a + b),
    decreases b,
{
    if b > 0 {
        lemma_rng_after(s, a, (b - 1) as nat);
    }
}

/// Tiny deterministic generator for benchmarks and tests. Its state is never
/// zero.
#[derive(Debug)]
pub struct Rng(u64);

impl View for Rng {
    type V = u64;

    closed spec fn view(&self) -> u64 {
        self.0
    }
}

/// A step never leads from a non-zero state to zero.
pub proof fn lemma_rng_nonzero(s: u64)
    requires
        s != 0,
    ensures
        rng_step(s) != 0,
{
    assert(s != 0 ==> {
        let a = s ^ (s >> 12);
        let b = a ^ (a << 25);
        (b ^ (b >> 27)) != 0
    }) by (bit_vector);
}

impl Clone for Rng {
    fn clone(&self) -> (r: Self)
        ensures
            r@ == self@,
    {
        proof {
            use_type_invariant(self);
        }
        Self(self.0)
    }
}

impl Rng {
    #[verifier::type_invariant]
    closed spec fn nonzero(&self) -> bool {
        self.0 != 0
    }

    /// A generator that starts at `seed`, or at a fixed state where `seed` is 0.
    pub fn new(seed: u64) -> (r: Self)
        ensures
            r@ == if seed == 0 { 0x9E37_79B9_7F4A_7C15 } else { seed },
            r@ != 0,
    {
        Self(if seed == 0 { 0x9E37_79B9_7F4A_7C15 } else { seed })
    }

    /// The next 64-bit draw.
    pub fn next_u64(&mut self) -> (r: u64)
        ensures
            final(self)@ == rng_step(old(self)@),
            final(self)@ != 0,
            r == rng_output(final(self)@),
    {
        proof {
            use_type_invariant(&*self);
            lemma_rng_nonzero(self.0);
        }
        let mut x: u64 = self.0;
        x ^= x >> 12;
        x ^= x << 25;
        x ^= x >> 27;
        self.0 = x;
        x.wrapping_mul(0x2545_F491_4F6C_DD1D)
    }

    /// A uniform draw from [0, 1), as its numerator over 2^24.
    pub fn next_f32(&mut self) -> (r: u32)
        ensures
            final(self)@ == rng_step(old(self)@),
            r == top24(rng_output(final(self)@)),
            r < 0x100_0000,
    {
        upper24(self.next_u64())
    }

    /// A sample of `noise`, from two uniform draws.
    pub fn next_gauss<R, N: Noise<R>>(&mut self, noise: &N) -> (r: R)
        ensures
            final(self)@ == rng_after(old(self)@, 2),
            r == noise.normal_of(
                top24(rng_draw(old(self)@, 0)),
                top24(rng_draw(old(self)@, 1)),
            ),
    {
        proof {
            reveal_with_fuel(rng_after, 3);
        }
        let u1: u32 = self.next_f32();
        let u2: u32 = self.next_f32();
        noise.normal(u1, u2)
    }
}

} // verus!
