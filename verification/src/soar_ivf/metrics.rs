//! Hits and recall.

use vstd::prelude::*;

use crate::linalg::{sq_l2, sq_l2_of};
use crate::overlap::{
    count_hits, distinct, hits, keep_distinct, lemma_distinct, lemma_hits_all,
};
use crate::scalar::{whole, Scalar};
use crate::sorting::{first_n, select_top_k, top_k};
use crate::spaces::{payloads, take_payloads};
use crate::table::rows;

verus! {

/// A vector found by a search, and its distance.
#[derive(Debug, Clone, Copy, PartialEq)]
pub struct Hit<R> {
    pub id: usize,
    pub dist: R,
}

/// The numbers of hits.
pub open spec fn hit_ids<R>(found: Seq<Hit<R>>) -> Seq<usize> {
    Seq::new(found.len(), |i: int| found[i].id)
}

/// The different numbers of the first `k` hits.
pub open spec fn top_ids<R>(found: Seq<Hit<R>>, k: nat) -> Seq<usize> {
    distinct(hit_ids(first_n(found, k)))
}

fn collect_top_ids<R>(found: &[Hit<R>], k: usize) -> (r: Vec<usize>)
    ensures
        r@ == top_ids(found@, k as nat),
{
    let n: usize = if k <= found.len() {
        k
    } else {
        found.len()
    };
    let ghost all = hit_ids(first_n(found@, k as nat));
    let mut list: Vec<usize> = Vec::new();
    let mut i: usize = 0;
    while i < n
        invariant
            i <= n,
            n <= found@.len(),
            n == all.len(),
            all == hit_ids(first_n(found@, k as nat)),
            list@ =~= all.take(i as int),
        decreases n - i,
    {
        list.push(found[i].id);
        i += 1;
    }
    assert(all.take(n as int) =~= all);
    keep_distinct(list.as_slice())
}

/// The share of the `k` true neighbours that are among the first `k` results;
/// one where there are no true neighbours.
pub open spec fn recall_of<R, S: Scalar>(results: Seq<Hit<R>>, truth: Seq<Hit<R>>, k: nat) -> S {
    let got = top_ids(results, k);
    let gold = top_ids(truth, k);
    if gold.len() == 0 {
        whole::<S>(1)
    } else {
        whole::<S>(hits(got, gold) as u64).over_of(
            whole::<S>(
                (if k <= gold.len() {
                    k
                } else {
                    gold.len()
                }) as u64,
            ),
        )
    }
}

/// The share of the `k` true neighbours that are among the first `k` results;
/// one where there are no true neighbours.
pub fn recall_at_k<R, S: Scalar>(results: &[Hit<R>], ground_truth: &[Hit<R>], k: usize) -> (r: S)
    ensures
        r == recall_of::<R, S>(results@, ground_truth@, k as nat),
{
    let got = collect_top_ids(results, k);
    let gold = collect_top_ids(ground_truth, k);
    if gold.len() == 0 {
        return S::ratio(1, 1);
    }
    let inter: usize = count_hits(got.as_slice(), gold.as_slice());
    let most: usize = if k <= gold.len() {
        k
    } else {
        gold.len()
    };
    S::ratio(inter as u64, 1).over(S::ratio(most as u64, 1))
}

/// A result that is the truth has all true neighbours among its hits, and no
/// result has more hits than there are true neighbours.
pub proof fn lemma_recall<R>(results: Seq<Hit<R>>, truth: Seq<Hit<R>>, k: nat)
    ensures
        hits(top_ids(truth, k), top_ids(truth, k)) == top_ids(truth, k).len(),
        top_ids(truth, k).len() <= k,
        hits(top_ids(results, k), top_ids(truth, k)) <= top_ids(truth, k).len(),
{
    let got = top_ids(results, k);
    let gold = top_ids(truth, k);
    lemma_distinct(hit_ids(first_n(truth, k)));
    lemma_distinct(hit_ids(first_n(results, k)));
    assert forall|i: int| 0 <= i < gold.len() implies gold.contains(#[trigger] gold[i]) by {}
    lemma_hits_all(gold, gold, gold.len());
    crate::overlap::lemma_hits_within(got, gold);
}

/// Every vector as a hit for `query`, keyed by its distance.
pub open spec fn all_hits<R: Scalar>(query: Seq<R>, vectors: Seq<Seq<R>>) -> Seq<(u64, Hit<R>)> {
    Seq::new(
        vectors.len(),
        |i: int|
            {
                let dist = sq_l2_of(query, vectors[i]);
                (dist.key_of(), Hit { id: i as usize, dist })
            },
    )
}

/// The `k` vectors nearest to a query.
pub open spec fn nearest_vectors<R: Scalar>(
    query: Seq<R>,
    vectors: Seq<Seq<R>>,
    k: nat,
) -> Seq<Hit<R>> {
    payloads(top_k(all_hits(query, vectors), k))
}

/// Scans all vectors for the `k` nearest to `query`. Of vectors at one distance
/// the earlier one comes first.
pub fn brute_force_topk<R: Scalar>(query: &[R], vectors: &[Vec<R>], k: usize) -> (r: Vec<Hit<R>>)
    ensures
        r@ == nearest_vectors(query@, rows(vectors@), k as nat),
{
    let n: usize = vectors.len();
    let ghost want = all_hits(query@, rows(vectors@));
    let mut all: Vec<(u64, Hit<R>)> = Vec::new();
    let mut i: usize = 0;
    while i < n
        invariant
            i <= n,
            n == vectors@.len(),
            want == all_hits(query@, rows(vectors@)),
            all@ =~= want.take(i as int),
        decreases n - i,
    {
        let dist: R = sq_l2(query, vectors[i].as_slice());
        all.push((dist.key(), Hit { id: i, dist }));
        i += 1;
    }
    assert(want.take(n as int) =~= want);
    let top = select_top_k(all.as_slice(), k);
    take_payloads(top.as_slice())
}

} // verus!
