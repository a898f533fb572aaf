//! Searches for vectors whose key lies in a range.

use vstd::prelude::*;

use crate::overlap::{collect_ids, count_hits, found_ids, hits};
use crate::scalar::{whole, Scalar};
use crate::serf::data::{in_range, within};

verus! {

/// A range of keys. Both bounds belong to it.
#[derive(Debug, Clone, Copy)]
pub struct Range<R> {
    pub lo: R,
    pub hi: R,
}

impl<R: Scalar> Range<R> {
    /// The range holds a key.
    pub open spec fn holds(self, key: R) -> bool {
        within(key, self.lo, self.hi)
    }

    /// Whether the range holds a key.
    pub fn contains(&self, key: R) -> (r: bool)
        ensures
            r == self.holds(key),
    {
        in_range(key, self.lo, self.hi)
    }
}

/// A way to find up to `k` vectors whose key lies in a range, by ascending
/// distance.
pub trait RangeSearch<R: Scalar> {
    /// Searches for `k` vectors can be made.
    spec fn ready(&self, k: nat) -> bool;

    /// What a search finds: positions and distances.
    spec fn answer(&self, q: Seq<R>, range: Range<R>, k: nat) -> Seq<(usize, R)>;

    /// The name under which results are reported.
    spec fn label(&self) -> Seq<char>;

    /// The name under which results are reported.
    fn name(&self) -> (r: &'static str)
        ensures
            r@ == self.label(),
    ;

    /// Searches.
    fn search(&self, q: &[R], range: Range<R>, k: usize) -> (found: Vec<(usize, R)>)
        requires
            self.ready(k as nat),
        ensures
            found@ == self.answer(q@, range, k as nat),
    ;
}

/// The share of the true results that were found; one where there are none.
pub open spec fn recall_of<R: Scalar>(found: Seq<(usize, R)>, truth: Seq<(usize, R)>) -> R {
    if truth.len() == 0 {
        whole::<R>(1)
    } else {
        whole::<R>(hits(found_ids(found), found_ids(truth)) as u64).over_of(
            whole::<R>(truth.len() as u64),
        )
    }
}

/// The share of the true results that were found; one where there are none.
pub fn recall<R: Scalar>(found: &[(usize, R)], truth: &[(usize, R)]) -> (r: R)
    ensures
        r == recall_of(found@, truth@),
{
    if truth.len() == 0 {
        return R::ratio(1, 1);
    }
    let got = collect_ids(found);
    let gold = collect_ids(truth);
    let n: usize = count_hits(got.as_slice(), gold.as_slice());
    R::ratio(n as u64, 1).over(R::ratio(truth.len() as u64, 1))
}

} // verus!
