//! How well a search does against exact results.

use vstd::prelude::*;

use crate::overlap::{count_hits, distinct, hits, keep_distinct, lemma_hits_bound};
use crate::report::{mean, mean_of, median, median_of};
use crate::scalar::{whole, Scalar};
use crate::table::rows;

verus! {

/// The means of a number of searches.
#[derive(Debug, Clone, Copy)]
pub struct EvalResult<W> {
    /// The share of the exact results that were found.
    pub recall: W,
    /// The share of the results that are exact.
    pub precision: W,
    /// The share of the results that are hubs.
    pub hub_rate: W,
    /// The median of the latencies.
    pub median_ns: u128,
    /// The number of different results.
    pub mean_returned: W,
}

/// The share of `k` results that `n` of them are.
pub open spec fn share<W: Scalar>(n: nat, k: nat) -> W {
    whole::<W>(n as u64).over_of(whole::<W>(k as u64))
}

/// The number of different results of a search; one where there are none.
pub open spec fn returned(out: Seq<usize>) -> nat {
    if distinct(out).len() == 0 {
        1
    } else {
        distinct(out).len()
    }
}

/// The number of different results of searches.
pub open spec fn all_returned(outs: Seq<Seq<usize>>, n: nat) -> nat
    decreases n,
{
    if n == 0 {
        0
    } else {
        all_returned(outs, (n - 1) as nat) + returned(outs[n - 1])
    }
}

/// The recall of each search, for `k` results.
pub open spec fn recalls<W: Scalar>(truths: Seq<Seq<usize>>, outs: Seq<Seq<usize>>, k: nat) -> Seq<
    W,
> {
    Seq::new(outs.len(), |i: int| share::<W>(hits(distinct(outs[i]), truths[i]), k))
}

/// The precision of each search.
pub open spec fn precisions<W: Scalar>(truths: Seq<Seq<usize>>, outs: Seq<Seq<usize>>) -> Seq<W> {
    Seq::new(
        outs.len(),
        |i: int| share::<W>(hits(distinct(outs[i]), truths[i]), returned(outs[i])),
    )
}

/// The share of hubs among the results of each search.
pub open spec fn hub_rates<W: Scalar>(outs: Seq<Seq<usize>>, hubs: Seq<usize>) -> Seq<W> {
    Seq::new(outs.len(), |i: int| share::<W>(hits(outs[i], hubs), returned(outs[i])))
}

/// What an evaluation of searches for `k` results reports.
pub open spec fn evaluation<W: Scalar>(
    truths: Seq<Seq<usize>>,
    outs: Seq<Seq<usize>>,
    hubs: Seq<usize>,
    k: nat,
    latencies: Seq<u128>,
) -> EvalResult<W> {
    EvalResult {
        recall: mean_of(recalls::<W>(truths, outs, k)),
        precision: mean_of(precisions::<W>(truths, outs)),
        hub_rate: mean_of(hub_rates::<W>(outs, hubs)),
        median_ns: median_of(latencies),
        mean_returned: share::<W>(all_returned(outs, outs.len()), outs.len()),
    }
}

/// Evaluates searches for `k` results, given the exact results of each and its
/// latency.
pub fn evaluate<W: Scalar>(
    truths: &Vec<Vec<usize>>,
    outs: &Vec<Vec<usize>>,
    hub_ids: &[usize],
    k: usize,
    latencies: Vec<u128>,
) -> (r: EvalResult<W>)
    requires
        truths@.len() == outs@.len(),
        latencies@.len() == outs@.len(),
        outs@.len() > 0,
        k > 0,
        all_returned(rows(outs@), outs@.len()) <= usize::MAX,
    ensures
        r == evaluation::<W>(rows(truths@), rows(outs@), hub_ids@, k as nat, latencies@),
{
    let n: usize = outs.len();
    let ghost t = rows(truths@);
    let ghost o = rows(outs@);
    let mut recall: Vec<W> = Vec::new();
    let mut precision: Vec<W> = Vec::new();
    let mut hub: Vec<W> = Vec::new();
    let mut sizes: usize = 0;
    let mut i: usize = 0;
    while i < n
        invariant
            i <= n,
            n == outs@.len(),
            n == truths@.len(),
            t == rows(truths@),
            o == rows(outs@),
            k > 0,
            all_returned(o, n as nat) <= usize::MAX,
            recall@ =~= recalls::<W>(t, o, k as nat).take(i as int),
            precision@ =~= precisions::<W>(t, o).take(i as int),
            hub@ =~= hub_rates::<W>(o, hub_ids@).take(i as int),
            sizes == all_returned(o, i as nat),
        decreases n - i,
    {
        let set = keep_distinct(outs[i].as_slice());
        let inter: usize = count_hits(set.as_slice(), truths[i].as_slice());
        let ret: usize = if set.len() == 0 {
            1
        } else {
            set.len()
        };
        let hubs: usize = count_hits(outs[i].as_slice(), hub_ids);
        recall.push(W::ratio(inter as u64, 1).over(W::ratio(k as u64, 1)));
        precision.push(W::ratio(inter as u64, 1).over(W::ratio(ret as u64, 1)));
        hub.push(W::ratio(hubs as u64, 1).over(W::ratio(ret as u64, 1)));
        proof {
            lemma_all_returned(o, i as nat + 1, n as nat);
            assert(o[i as int] == outs@[i as int]@);
        }
        sizes = sizes + ret;
        i += 1;
    }
    proof {
        assert(recalls::<W>(t, o, k as nat).take(n as int) =~= recalls::<W>(t, o, k as nat));
        assert(precisions::<W>(t, o).take(n as int) =~= precisions::<W>(t, o));
        assert(hub_rates::<W>(o, hub_ids@).take(n as int) =~= hub_rates::<W>(o, hub_ids@));
    }
    EvalResult {
        recall: mean(recall.as_slice()),
        precision: mean(precision.as_slice()),
        hub_rate: mean(hub.as_slice()),
        median_ns: median(latencies),
        mean_returned: W::ratio(sizes as u64, 1).over(W::ratio(n as u64, 1)),
    }
}

proof fn lemma_all_returned(outs: Seq<Seq<usize>>, m: nat, n: nat)
    requires
        m <= n,
    ensures
        all_returned(outs, m) <= all_returned(outs, n),
    decreases n,
{
    if m < n {
        lemma_all_returned(outs, m, (n - 1) as nat);
    }
}

/// No search has more exact results than results, so no precision is above one.
pub proof fn lemma_precision(truth: Seq<usize>, out: Seq<usize>)
    ensures
        hits(distinct(out), truth) <= returned(out),
        1 <= returned(out),
{
    lemma_hits_bound(distinct(out), truth, distinct(out).len());
}

/// The verified searches do as well as the first ones: their precision is no less
/// and their hub rate no greater. And a cached search takes no more than four
/// times as long as a live one.
pub open spec fn acceptable<W: Scalar>(
    baseline: EvalResult<W>,
    live: EvalResult<W>,
    cached: EvalResult<W>,
) -> bool {
    &&& baseline.precision.key_of() <= cached.precision.key_of()
    &&& cached.hub_rate.key_of() <= baseline.hub_rate.key_of()
    &&& cached.median_ns <= 4 * live.median_ns
}

/// Decides whether the verified searches do as well as the first ones.
pub fn accepts<W: Scalar>(
    baseline: &EvalResult<W>,
    live: &EvalResult<W>,
    cached: &EvalResult<W>,
) -> (r: bool)
    requires
        4 * live.median_ns <= u128::MAX,
    ensures
        r == acceptable(*baseline, *live, *cached),
{
    baseline.precision.key() <= cached.precision.key() && cached.hub_rate.key()
        <= baseline.hub_rate.key() && cached.median_ns <= live.median_ns * 4
}

} // verus!
