//! Errors of the graph indexes.

use vstd::prelude::*;
use vstd::string::*;

use crate::text::{two_numbers, with_two_numbers};

verus! {

/// What can go wrong when a graph is built or searched.
#[derive(Debug, Clone, Copy, PartialEq, Eq, Structural)]
pub enum RoarError {
    /// The index holds no vectors.
    EmptyIndex,
    /// A vector has another dimension than the index.
    DimensionMismatch { expected: usize, got: usize },
    /// There are no training queries.
    NoTrainingQueries,
    /// More results are asked for than there are vectors.
    KTooLarge { k: usize, n: usize },
    /// The graph has not been built.
    NotBuilt,
}

impl RoarError {
    /// The message that the error shows.
    pub open spec fn text(self) -> Seq<char> {
        match self {
            RoarError::EmptyIndex => "index is empty — call add() before build/search"@,
            RoarError::DimensionMismatch { expected, got } => two_numbers(
                "dimension mismatch: expected "@,
                expected as nat,
                ", got "@,
                got as nat,
                ""@,
            ),
            RoarError::NoTrainingQueries => "training query set is empty"@,
            RoarError::KTooLarge { k, n } => two_numbers(
                "k="@,
                k as nat,
                " exceeds number of indexed vectors n="@,
                n as nat,
                ""@,
            ),
            RoarError::NotBuilt => "graph not built — call build() before search()"@,
        }
    }

    /// The message that the error shows.
    pub fn message(&self) -> (r: String)
        ensures
            r@ == self.text(),
    {
        match self {
            RoarError::EmptyIndex => String::from_str(
                "index is empty — call add() before build/search",
            ),
            RoarError::DimensionMismatch { expected, got } => with_two_numbers(
                "dimension mismatch: expected ",
                *expected,
                ", got ",
                *got,
                "",
            ),
            RoarError::NoTrainingQueries => String::from_str("training query set is empty"),
            RoarError::KTooLarge { k, n } => with_two_numbers(
                "k=",
                *k,
                " exceeds number of indexed vectors n=",
                *n,
                "",
            ),
            RoarError::NotBuilt => String::from_str(
                "graph not built — call build() before search()",
            ),
        }
    }
}

} // verus!
