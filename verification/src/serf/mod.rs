//! Nearest neighbours among points with an attribute in a range.
//!
//! Three ways to answer a query share the trait `RangeAnn`: an exact scan, a
//! graph search whose results are filtered afterwards, and a graph search that
//! stays within the range.

pub mod answer_laws;
pub mod data;
pub mod exact;
pub mod flat;
pub mod graph;
pub mod greedy;
pub mod linear;
pub mod nsw;
pub mod nsw_post;
pub mod post_filter;
pub mod range;
pub mod segment;
pub mod serf;

use vstd::prelude::*;

use crate::overlap::{count_hits, hits, lemma_hits_all};
use crate::scalar::{whole, Scalar};

pub use crate::serf::data::{Dataset, Point, Query};

verus! {

/// A point that a search found.
#[derive(Debug, Clone, Copy, PartialEq)]
pub struct Hit<R> {
    pub id: u32,
    pub dist: R,
}

/// A way to answer queries: up to `k` points whose attribute lies in the range
/// of the query, by ascending distance.
pub trait RangeAnn<R: Scalar> {
    /// Queries can be answered.
    spec fn ready(&self, query: Query<R>) -> bool;

    /// What a search finds.
    spec fn answer(&self, query: Query<R>, k: nat) -> Seq<Hit<R>>;

    /// The name under which results are reported.
    spec fn label(&self) -> Seq<char>;

    /// The name under which results are reported.
    fn name(&self) -> (r: &'static str)
        ensures
            r@ == self.label(),
    ;

    /// Searches.
    fn search(&self, query: &Query<R>, k: usize) -> (found: Vec<Hit<R>>)
        requires
            self.ready(*query),
        ensures
            found@ == self.answer(*query, k as nat),
    ;
}

/// The numbers of the first `n` hits.
pub open spec fn hit_ids<R>(found: Seq<Hit<R>>, n: nat) -> Seq<usize> {
    Seq::new(n, |i: int| found[i].id as usize)
}

fn collect_ids<R>(found: &[Hit<R>], n: usize) -> (r: Vec<usize>)
    requires
        n <= found@.len(),
    ensures
        r@ == hit_ids(found@, n as nat),
{
    let mut r: Vec<usize> = Vec::new();
    let mut i: usize = 0;
    while i < n
        invariant
            i <= n <= found@.len(),
            r@ =~= hit_ids(found@, i as nat),
        decreases n - i,
    {
        r.push(found[i].id as usize);
        i += 1;
    }
    r
}

/// The number of hits that are compared: `k`, or as many as there are.
pub open spec fn compared(truth: nat, candidate: nat, k: nat) -> nat {
    let most = if candidate == 0 {
        1
    } else {
        candidate
    };
    let n = if k <= truth {
        k
    } else {
        truth
    };
    if n <= most {
        n
    } else {
        most
    }
}

/// The share of the first true hits that are among the first hits found; one
/// where none is compared.
pub open spec fn recall_of<R: Scalar>(truth: Seq<Hit<R>>, candidate: Seq<Hit<R>>, k: nat) -> R {
    if truth.len() == 0 || k == 0 {
        whole::<R>(1)
    } else {
        let n = compared(truth.len(), candidate.len(), k);
        let m = if candidate.len() == 0 {
            0
        } else {
            n
        };
        whole::<R>(hits(hit_ids(candidate, m), hit_ids(truth, n)) as u64).over_of(
            whole::<R>(n as u64),
        )
    }
}

/// The share of the first true hits that are among the first hits found; one
/// where none is compared.
pub fn recall_at_k<R: Scalar>(truth: &[Hit<R>], candidate: &[Hit<R>], k: usize) -> (r: R)
    ensures
        r == recall_of(truth@, candidate@, k as nat),
{
    if truth.len() == 0 || k == 0 {
        return R::ratio(1, 1);
    }
    let most: usize = if candidate.len() == 0 {
        1
    } else {
        candidate.len()
    };
    let mut n: usize = k;
    if truth.len() < n {
        n = truth.len();
    }
    if most < n {
        n = most;
    }
    let m: usize = if candidate.len() == 0 {
        0
    } else {
        n
    };
    let gold = collect_ids(truth, n);
    let got = collect_ids(candidate, m);
    let count: usize = count_hits(got.as_slice(), gold.as_slice());
    R::ratio(count as u64, 1).over(R::ratio(n as u64, 1))
}

/// A search that finds the true hits has all of them among its first `k`, and no
/// search has more.
pub proof fn lemma_recall<R>(truth: Seq<Hit<R>>, candidate: Seq<Hit<R>>, n: nat, m: nat)
    requires
        n <= truth.len(),
        m <= candidate.len(),
        m <= n,
    ensures
        hits(hit_ids(truth, n), hit_ids(truth, n)) == n,
        hits(hit_ids(candidate, m), hit_ids(truth, n)) <= n,
{
    let t = hit_ids(truth, n);
    assert forall|i: int| 0 <= i < t.len() implies t.contains(#[trigger] t[i]) by {}
    lemma_hits_all(t, t, n);
    crate::overlap::lemma_hits_bound(hit_ids(candidate, m), t, m);
}

} // verus!
