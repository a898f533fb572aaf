//! What can go wrong.

use vstd::prelude::*;

use crate::text::{two_numbers, with_two_numbers};

verus! {

/// What can go wrong when sketches are made or searched.
#[derive(Debug, Clone, Copy, PartialEq, Eq, Structural)]
pub enum PrefilterError {
    /// A vector has another number of components than the family expects.
    DimensionMismatch { expected: usize, got: usize },
    /// More candidates are asked for than there are vectors.
    NotEnoughCandidates { m: usize, n: usize },
}

impl PrefilterError {
    /// The message that the error shows.
    pub open spec fn text(self) -> Seq<char> {
        match self {
            PrefilterError::DimensionMismatch { expected, got } => two_numbers(
                "dimension mismatch: expected "@,
                expected as nat,
                ", got "@,
                got as nat,
                ""@,
            ),
            PrefilterError::NotEnoughCandidates { m, n } => two_numbers(
                "candidate multiplier ("@,
                m as nat,
                ") exceeds index size ("@,
                n as nat,
                ")"@,
            ),
        }
    }

    /// The message that the error shows.
    pub fn message(&self) -> (r: String)
        ensures
            r@ == self.text(),
    {
        match self {
            PrefilterError::DimensionMismatch { expected, got } => with_two_numbers(
                "dimension mismatch: expected ",
                *expected,
                ", got ",
                *got,
                "",
            ),
            PrefilterError::NotEnoughCandidates { m, n } => with_two_numbers(
                "candidate multiplier (",
                *m,
                ") exceeds index size (",
                *n,
                ")",
            ),
        }
    }
}

} // verus!
