//! Distances and similarities.

use vstd::prelude::*;

use crate::linalg::{cosine, cosine_of, sq_l2, sq_l2_of};
use crate::scalar::Scalar;

verus! {

/// How two vectors with components of type `T` compare.
///
/// The outcome is reported as an order key. For a distance, the smaller key is
/// the smaller distance; for a similarity, the greater key is the greater
/// similarity.
pub trait Distance<T> {
    /// The key for `a` and `b`.
    open spec fn spec_key(&self, a: Seq<T>, b: Seq<T>) -> u64 {
        arbitrary()
    }

    /// Computes the key for `a` and `b`.
    fn key(&self, a: &[T], b: &[T]) -> (k: u64)
        ensures
            k == self.spec_key(a@, b@),
    ;
}

/// The squared Euclidean distance.
#[derive(Clone, Copy, Debug)]
pub struct SqL2;

impl<R: Scalar> Distance<R> for SqL2 {
    open spec fn spec_key(&self, a: Seq<R>, b: Seq<R>) -> u64 {
        sq_l2_of(a, b).key_of()
    }

    fn key(&self, a: &[R], b: &[R]) -> (k: u64) {
        sq_l2(a, b).key()
    }
}

/// The cosine similarity.
#[derive(Clone, Copy, Debug)]
pub struct Cosine;

impl<R: Scalar> Distance<R> for Cosine {
    open spec fn spec_key(&self, a: Seq<R>, b: Seq<R>) -> u64 {
        cosine_of(a, b).key_of()
    }

    fn key(&self, a: &[R], b: &[R]) -> (k: u64) {
        cosine(a, b).key()
    }
}

} // verus!
