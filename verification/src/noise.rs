//! Random components from uniform draws.

use vstd::prelude::*;

use crate::scalar::Fixed;

verus! {

/// A distribution around zero, sampled from two uniform draws.
///
/// A draw is given by its numerator over 2^24.
pub trait Noise<R> {
    /// The sample for draws `u1` and `u2`.
    open spec fn normal_of(&self, u1: u32, u2: u32) -> R {
        arbitrary()
    }

    /// Computes the sample for draws `u1` and `u2`.
    fn normal(&self, u1: u32, u2: u32) -> (r: R)
        requires
            u1 < 0x100_0000,
            u2 < 0x100_0000,
        ensures
            r == self.normal_of(u1, u2),
    ;
}

/// The distribution of a sum of two uniform draws, between -1 and 1.
#[derive(Clone, Copy, Debug)]
pub struct Triangular;

impl Noise<Fixed> for Triangular {
    open spec fn normal_of(&self, u1: u32, u2: u32) -> Fixed {
        Fixed { raw: ((u1 + u2) / 256 - 0x1_0000) as i64 }
    }

    fn normal(&self, u1: u32, u2: u32) -> (r: Fixed) {
        Fixed { raw: ((u1 + u2) / 256) as i64 - 0x1_0000 }
    }
}

/// A distribution around zero, sampled from two fine uniform draws.
///
/// A draw is given by its numerator over 2^53.
pub trait FineNoise<R> {
    /// The sample for draws `u1` and `u2`.
    open spec fn fine_normal_of(&self, u1: u64, u2: u64) -> R {
        arbitrary()
    }

    /// Computes the sample for draws `u1` and `u2`.
    fn fine_normal(&self, u1: u64, u2: u64) -> (r: R)
        requires
            u1 < 0x20_0000_0000_0000,
            u2 < 0x20_0000_0000_0000,
        ensures
            r == self.fine_normal_of(u1, u2),
    ;
}

impl FineNoise<Fixed> for Triangular {
    open spec fn fine_normal_of(&self, u1: u64, u2: u64) -> Fixed {
        Fixed { raw: ((u1 + u2) / 0x20_0000_0000 - 0x1_0000) as i64 }
    }

    fn fine_normal(&self, u1: u64, u2: u64) -> (r: Fixed) {
        Fixed { raw: ((u1 + u2) / 0x20_0000_0000) as i64 - 0x1_0000 }
    }
}

/// The upper 53 bits of a draw of 64 bits, the numerator over 2^53 of a uniform
/// draw from [0, 1).
pub open spec fn top53(draw: u64) -> u64 {
    draw >> 11
}

/// The upper 53 bits of a draw of 64 bits.
pub fn upper53(draw: u64) -> (r: u64)
    ensures
        r == top53(draw),
        r < 0x20_0000_0000_0000,
{
    assert((draw >> 11) < 0x20_0000_0000_0000u64) by (bit_vector);
    draw >> 11
}

/// The upper 24 bits of a draw of 64 bits, the numerator over 2^24 of a uniform
/// draw from [0, 1).
pub open spec fn top24(draw: u64) -> u32 {
    (draw >> 40) as u32
}

/// The upper 24 bits are a number below 2^24.
pub proof fn lemma_top24(draw: u64)
    ensures
        top24(draw) < 0x100_0000,
{
    assert((draw >> 40) < 0x100_0000u64) by (bit_vector);
}

/// The upper 24 bits of a draw of 64 bits.
pub fn upper24(draw: u64) -> (r: u32)
    ensures
        r == top24(draw),
        r < 0x100_0000,
{
    proof {
        lemma_top24(draw);
        assert((draw >> 40) < 0x100_0000u64) by (bit_vector);
    }
    (draw >> 40) as u32
}

} // verus!
