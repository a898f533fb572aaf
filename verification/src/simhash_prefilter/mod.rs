//! Candidate reduction by binary sketches.
//!
//! A vector's sketch holds one bit for each of many random hyperplanes: on which
//! side of it the vector lies. A search ranks the vectors by the Hamming distance
//! of their sketches, and then the best of them by their exact distance.

pub mod error;
pub mod family;
pub mod index;
pub mod prefilter_laws;
pub mod sketch;
pub mod sketch_laws;

use vstd::prelude::*;

use crate::overlap::{
    collect_ids, count_hits, distinct, found_ids, hits, keep_distinct, lemma_distinct,
    lemma_hits_all, lemma_hits_within,
};
use crate::scalar::{whole, Scalar};

pub use crate::linalg::sq_l2;
pub use crate::simhash_prefilter::error::PrefilterError;
pub use crate::simhash_prefilter::family::{SketchFamily, SrpFamily};
pub use crate::simhash_prefilter::index::FlatPrefilterIndex;
pub use crate::simhash_prefilter::sketch::Sketch;

verus! {

/// The share of the true results that were found, each counted once; one where
/// there are none.
pub open spec fn recall_of<R: Scalar>(candidate: Seq<(usize, R)>, truth: Seq<(usize, R)>) -> R {
    if truth.len() == 0 {
        whole::<R>(1)
    } else {
        whole::<R>(hits(distinct(found_ids(candidate)), found_ids(truth)) as u64).over_of(
            whole::<R>(truth.len() as u64),
        )
    }
}

/// The share of the true results that were found, each counted once; one where
/// there are none.
pub fn recall_at_k<R: Scalar>(candidate: &[(usize, R)], truth: &[(usize, R)]) -> (r: R)
    ensures
        r == recall_of(candidate@, truth@),
{
    if truth.len() == 0 {
        return R::ratio(1, 1);
    }
    let got = keep_distinct(collect_ids(candidate).as_slice());
    let gold = collect_ids(truth);
    let n: usize = count_hits(got.as_slice(), gold.as_slice());
    R::ratio(n as u64, 1).over(R::ratio(truth.len() as u64, 1))
}

/// The true result has all true results among its hits, and no result has more.
pub proof fn lemma_recall<R>(candidate: Seq<(usize, R)>, truth: Seq<(usize, R)>)
    requires
        found_ids(truth).no_duplicates(),
    ensures
        hits(distinct(found_ids(candidate)), found_ids(truth)) <= truth.len(),
        hits(distinct(found_ids(truth)), found_ids(truth)) == truth.len(),
{
    let t = found_ids(truth);
    lemma_distinct(found_ids(candidate));
    lemma_distinct(t);
    lemma_hits_within(distinct(found_ids(candidate)), t);
    assert forall|i: int| 0 <= i < t.len() implies t.contains(#[trigger] t[i]) by {}
    lemma_hits_all(t, t, t.len());
}

} // verus!
