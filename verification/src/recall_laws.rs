//! What shares and means are worth, over fixed-point numbers.

use vstd::prelude::*;

use crate::exact::{close, lemma_over};
use crate::overlap::{
    distinct, found_ids, hits, hits_upto, lemma_distinct, lemma_hits_bound, lemma_hits_set,
};
use crate::report::{
    in_ascending_order, lemma_in_ascending_order, mean_of, median_of, percentile_of,
    percentile_rank, sum_upto,
};
use crate::rknn_verified::evaluate::{
    evaluation, hub_rates, lemma_precision, precisions, recalls,
};
use crate::roargraph::dataset::in_set_upto;
use crate::roargraph::graph::{column_sum, global_mean};
use crate::roargraph::samples::{first_ids, share_of};
use crate::roargraph::wide_ids;
use crate::scalar::{whole, Fixed, Scalar};
use crate::soar_ivf::metrics::top_ids;
use crate::sorting::first_n;

verus! {

/// The number of different values that two lists share.
pub open spec fn common_count<A>(a: Seq<A>, b: Seq<A>) -> nat {
    a.to_set().intersect(b.to_set()).len()
}

/// `r` is the share that `n` of `k` are, rounded down.
pub open spec fn is_share(r: Fixed, n: nat, k: nat) -> bool {
    0 <= r.raw * k <= 0x1_0000 * n < (r.raw + 1) * k
}

proof fn lemma_share(n: nat, k: nat)
    requires
        n <= 0xFFFF_FFFF,
        0 < k <= 0xFFFF_FFFF,
    ensures
        is_share(whole::<Fixed>(n as u64).over_of(whole::<Fixed>(k as u64)), n, k),
{
    let a = whole::<Fixed>(n as u64);
    let b = whole::<Fixed>(k as u64);
    assert(a.raw == n * 0x1_0000 && b.raw == k * 0x1_0000);
    lemma_over(a, b);
    let r = a.over_of(b).raw as int;
    let rk = r * k;
    assert(r * b.raw == 0x1_0000 * rk) by (nonlinear_arith)
        requires
            b.raw == k * 0x1_0000,
            rk == r * k,
    ;
    assert((r + 1) * k == rk + k) by (nonlinear_arith)
        requires
            rk == r * k,
    ;
}

proof fn lemma_common<A>(got: Seq<A>, gold: Seq<A>)
    requires
        got.no_duplicates(),
    ensures
        hits(got, gold) == common_count(got, gold),
        hits(got, gold) <= got.len(),
{
    lemma_hits_set(got, gold, got.len());
    assert(got.take(got.len() as int) =~= got);
    lemma_hits_bound(got, gold, got.len());
}

proof fn lemma_same_set<A>(a: Seq<A>, b: Seq<A>, gold: Seq<A>)
    requires
        forall|x: A| a.contains(x) <==> b.contains(x),
    ensures
        common_count(a, gold) == common_count(b, gold),
{
    assert(a.to_set() =~= b.to_set());
}

proof fn lemma_flip<A>(a: Seq<A>, b: Seq<A>)
    ensures
        common_count(a, b) == common_count(b, a),
{
    assert(a.to_set().intersect(b.to_set()) =~= b.to_set().intersect(a.to_set()));
}

/// The recall of a search by product codes is the share of the true numbers that are
/// predicted.
pub proof fn lemma_rpq_recall(truth: Seq<u32>, predicted: Seq<u32>)
    requires
        predicted.no_duplicates(),
        0 < truth.len() <= 0xFFFF_FFFF,
        predicted.len() <= 0xFFFF_FFFF,
    ensures
        is_share(
            crate::rpq::recall_of::<Fixed>(truth, predicted),
            common_count(truth, predicted),
            truth.len(),
        ),
{
    lemma_common(predicted, truth);
    lemma_flip(predicted, truth);
    lemma_share(hits(predicted, truth), truth.len());
}

/// The recall of a range search is the share of the true numbers that were found.
pub proof fn lemma_range_recall(gt: Seq<u32>, got: Seq<u32>)
    requires
        gt.no_duplicates(),
        0 < gt.len() <= 0xFFFF_FFFF,
    ensures
        is_share(
            crate::segment_rangehnsw::samples::recall_of::<Fixed>(gt, got),
            common_count(gt, got),
            gt.len(),
        ),
{
    lemma_common(gt, got);
    lemma_share(hits(gt, got), gt.len());
}

/// The recall of a search by sketches is the share of the true numbers that were found,
/// however often.
pub proof fn lemma_simhash_recall(candidate: Seq<(usize, Fixed)>, truth: Seq<(usize, Fixed)>)
    requires
        candidate.len() <= 0xFFFF_FFFF,
        0 < truth.len() <= 0xFFFF_FFFF,
    ensures
        is_share(
            crate::simhash_prefilter::recall_of(candidate, truth),
            common_count(found_ids(candidate), found_ids(truth)),
            truth.len(),
        ),
{
    let c = found_ids(candidate);
    let t = found_ids(truth);
    lemma_distinct(c);
    lemma_common(distinct(c), t);
    lemma_same_set(distinct(c), c, t);
    lemma_share(hits(distinct(c), t), truth.len());
}

/// The recall of a search with attributes is the share of the true results that were
/// found.
pub proof fn lemma_attribute_recall(found: Seq<(usize, Fixed)>, truth: Seq<(usize, Fixed)>)
    requires
        found_ids(found).no_duplicates(),
        found.len() <= 0xFFFF_FFFF,
        0 < truth.len() <= 0xFFFF_FFFF,
    ensures
        is_share(
            crate::serf::range::recall_of(found, truth),
            common_count(found_ids(found), found_ids(truth)),
            truth.len(),
        ),
{
    lemma_common(found_ids(found), found_ids(truth));
    lemma_share(hits(found_ids(found), found_ids(truth)), truth.len());
}

/// The recall at `k` of a search that finds `k` hits is the share of the first `k` true
/// hits that are among its first `k`; where there are fewer hits or true ones, as many
/// are compared as both have.
pub proof fn lemma_serf_recall(
    truth: Seq<crate::serf::Hit<Fixed>>,
    candidate: Seq<crate::serf::Hit<Fixed>>,
    k: nat,
    n: nat,
)
    requires
        0 < n <= k,
        n <= truth.len() <= 0xFFFF_FFFF,
        n <= candidate.len(),
        n == k || n == truth.len() || n == candidate.len(),
        crate::serf::hit_ids(candidate, n).no_duplicates(),
    ensures
        is_share(
            crate::serf::recall_of(truth, candidate, k),
            common_count(crate::serf::hit_ids(candidate, n), crate::serf::hit_ids(truth, n)),
            n,
        ),
{
    let c = crate::serf::hit_ids(candidate, n);
    let t = crate::serf::hit_ids(truth, n);
    lemma_common(c, t);
    lemma_share(hits(c, t), n);
}

/// The recall at `k` of a probing search is the share of the different true numbers
/// among the first `k` that are among the first `k` results.
pub proof fn lemma_ivf_recall(
    results: Seq<crate::soar_ivf::metrics::Hit<Fixed>>,
    truth: Seq<crate::soar_ivf::metrics::Hit<Fixed>>,
    k: nat,
)
    requires
        results.len() <= 0xFFFF_FFFF,
        0 < truth.len() <= 0xFFFF_FFFF,
        k > 0,
    ensures
        is_share(
            crate::soar_ivf::metrics::recall_of::<Fixed, Fixed>(results, truth, k),
            common_count(
                crate::soar_ivf::metrics::hit_ids(first_n(results, k)),
                crate::soar_ivf::metrics::hit_ids(first_n(truth, k)),
            ),
            top_ids(truth, k).len(),
        ),
{
    let a = crate::soar_ivf::metrics::hit_ids(first_n(results, k));
    let b = crate::soar_ivf::metrics::hit_ids(first_n(truth, k));
    lemma_distinct(a);
    lemma_distinct(b);
    let (got, gold) = (distinct(a), distinct(b));
    lemma_common(got, gold);
    lemma_same_set(got, a, gold);
    lemma_flip(a, gold);
    lemma_same_set(gold, b, a);
    lemma_flip(a, b);
    assert(b.len() > 0);
    lemma_share(hits(got, gold), gold.len());
}

/// The recall of a graph search is the share of the different true numbers that were
/// found.
pub proof fn lemma_graph_recall(got: Seq<crate::roargraph::Hit>, gold: Seq<crate::roargraph::Hit>)
    requires
        got.len() <= 0xFFFF_FFFF,
        0 < gold.len() <= 0xFFFF_FFFF,
    ensures
        is_share(
            crate::roargraph::recall_of::<Fixed>(got, gold),
            common_count(wide_ids(got), wide_ids(gold)),
            distinct(wide_ids(gold)).len(),
        ),
{
    let (a, b) = (wide_ids(got), wide_ids(gold));
    lemma_distinct(a);
    lemma_distinct(b);
    lemma_common(distinct(a), b);
    lemma_same_set(distinct(a), a, b);
    lemma_share(hits(distinct(a), b), distinct(b).len());
}

/// The share of `k` results that are among the first `k` true ones.
pub proof fn lemma_sample_share(got: Seq<(u32, Fixed)>, truth: Seq<u32>, k: nat)
    requires
        0 < k <= 0xFFFF_FFFF,
        first_ids(got, k).no_duplicates(),
    ensures
        is_share(
            share_of(got, truth, k),
            common_count(first_ids(got, k), first_n(truth, k)),
            k,
        ),
{
    lemma_common(first_ids(got, k), first_n(truth, k));
    lemma_share(hits(first_ids(got, k), first_n(truth, k)), k);
}

proof fn lemma_in_set(ids: Seq<usize>, set: Set<usize>, gold: Seq<usize>, n: nat)
    requires
        n <= ids.len(),
        forall|x: usize| set.contains(x) <==> gold.contains(x),
    ensures
        in_set_upto(ids, set, n) == hits_upto(ids, gold, n),
    decreases n,
{
    if n > 0 {
        lemma_in_set(ids, set, gold, (n - 1) as nat);
    }
}

/// The recall against a set of true neighbours is the share of them that were found.
pub proof fn lemma_set_recall(ids: Seq<usize>, truth: Set<usize>)
    requires
        truth.finite(),
        0 < truth.len() <= 0xFFFF_FFFF,
        ids.len() <= 0xFFFF_FFFF,
    ensures
        is_share(
            crate::roargraph::dataset::recall_of::<Fixed>(ids, truth),
            ids.to_set().intersect(truth).len(),
            truth.len(),
        ),
{
    let gold = truth.to_seq();
    truth.lemma_to_seq_to_set_id();
    assert forall|x: usize| truth.contains(x) <==> gold.contains(x) by {
        assert(gold.to_set().contains(x) <==> gold.contains(x));
    }
    let d = distinct(ids);
    lemma_distinct(ids);
    lemma_in_set(d, truth, gold, d.len());
    lemma_common(d, gold);
    lemma_same_set(d, ids, gold);
    assert(ids.to_set().intersect(truth) =~= ids.to_set().intersect(gold.to_set()));
    lemma_share(hits(d, gold), truth.len());
}

/// The recall and the precision of a search: what it found of the truth, as a share of
/// `k` and of the different results.
pub proof fn lemma_evaluated(truths: Seq<Seq<usize>>, outs: Seq<Seq<usize>>, k: nat, i: int)
    requires
        0 <= i < outs.len() == truths.len(),
        0 < k <= 0xFFFF_FFFF,
        0 < outs[i].len() <= 0xFFFF_FFFF,
    ensures
        is_share(
            recalls::<Fixed>(truths, outs, k)[i],
            common_count(outs[i], truths[i]),
            k,
        ),
        is_share(
            precisions::<Fixed>(truths, outs)[i],
            common_count(outs[i], truths[i]),
            distinct(outs[i]).len(),
        ),
        precisions::<Fixed>(truths, outs)[i].raw <= 0x1_0000,
{
    let (out, truth) = (outs[i], truths[i]);
    lemma_distinct(out);
    lemma_common(distinct(out), truth);
    lemma_same_set(distinct(out), out, truth);
    lemma_precision(truth, out);
    let n = hits(distinct(out), truth);
    lemma_share(n, k);
    lemma_share(n, distinct(out).len());
    let (p, d) = (precisions::<Fixed>(truths, outs)[i].raw as int, distinct(out).len());
    assert(p <= 0x1_0000) by (nonlinear_arith)
        requires
            p * d <= 0x1_0000 * n,
            n <= d,
            d > 0,
    ;
}

/// The hub rate of a search without repeated results is the share of its results that
/// are hubs.
pub proof fn lemma_hub_rate(outs: Seq<Seq<usize>>, hubs: Seq<usize>, i: int)
    requires
        0 <= i < outs.len(),
        0 < outs[i].len() <= 0xFFFF_FFFF,
        outs[i].no_duplicates(),
    ensures
        is_share(
            hub_rates::<Fixed>(outs, hubs)[i],
            common_count(outs[i], hubs),
            outs[i].len(),
        ),
{
    lemma_distinct(outs[i]);
    lemma_common(outs[i], hubs);
    lemma_share(hits(outs[i], hubs), outs[i].len());
}

/// The sum of the first `n` values, in units.
pub open spec fn exact_total(xs: Seq<Fixed>, n: nat) -> int
    decreases n,
{
    if n == 0 {
        0
    } else {
        exact_total(xs, (n - 1) as nat) + xs[n - 1].raw
    }
}

proof fn lemma_sum_upto(xs: Seq<Fixed>, n: nat)
    requires
        n <= xs.len() <= 0x8000_0000,
        forall|i: int| 0 <= i < xs.len() ==> -0x8000_0000 <= (#[trigger] xs[i]).raw <= 0x8000_0000,
    ensures
        sum_upto(xs, n).raw == exact_total(xs, n),
        -0x8000_0000 * n <= exact_total(xs, n) <= 0x8000_0000 * n,
    decreases n,
{
    if n > 0 {
        lemma_sum_upto(xs, (n - 1) as nat);
        assert(-0x8000_0000 <= xs[n - 1].raw <= 0x8000_0000);
    }
}

/// The mean of values, times their number, is their sum, with a unit of rounding for
/// each.
pub proof fn lemma_mean(xs: Seq<Fixed>)
    requires
        0 < xs.len() <= 0x8000_0000,
        forall|i: int| 0 <= i < xs.len() ==> -0x8000_0000 <= (#[trigger] xs[i]).raw <= 0x8000_0000,
    ensures
        close(xs.len() * mean_of(xs).raw, exact_total(xs, xs.len()), xs.len()),
{
    let n = xs.len();
    lemma_sum_upto(xs, n);
    let s = sum_upto(xs, n);
    let w = whole::<Fixed>(n as u64);
    assert(w.raw == n * 0x1_0000);
    lemma_over(s, w);
    let m = mean_of(xs).raw as int;
    let nm = n * m;
    assert(m * w.raw == 0x1_0000 * nm) by (nonlinear_arith)
        requires
            w.raw == n * 0x1_0000,
            nm == n * m,
    ;
}

/// A percentile is taken at the position nearest to that share of the way from the
/// first value to the last one; a greater percentile is never at an earlier position,
/// and never a smaller value.
pub proof fn lemma_percentile_nearest(v: Seq<u128>, pct: nat, more: nat)
    requires
        v.len() > 0,
        pct <= more <= 100,
    ensures
        percentile_rank(v.len(), pct) < v.len(),
        close(100 * percentile_rank(v.len(), pct) as int, pct * (v.len() - 1), 50),
        percentile_rank(v.len(), pct) <= percentile_rank(v.len(), more),
        percentile_of(v, pct) <= percentile_of(v, more),
{
    let n = v.len();
    let (a, b) = (pct * (n - 1), more * (n - 1));
    assert(0 <= a <= b <= 100 * (n - 1)) by (nonlinear_arith)
        requires
            a == pct * (n - 1),
            b == more * (n - 1),
            pct <= more <= 100,
            n >= 1,
    ;
    lemma_in_ascending_order(v);
}

/// The number of values that are less than `x`.
pub open spec fn count_less(v: Seq<u128>, x: u128, n: nat) -> nat
    decreases n,
{
    if n == 0 {
        0
    } else {
        count_less(v, x, (n - 1) as nat) + if v[n - 1] < x {
            1nat
        } else {
            0
        }
    }
}

/// The number of values that are no greater than `x`.
pub open spec fn count_upto(v: Seq<u128>, x: u128, n: nat) -> nat
    decreases n,
{
    if n == 0 {
        0
    } else {
        count_upto(v, x, (n - 1) as nat) + if v[n - 1] <= x {
            1nat
        } else {
            0
        }
    }
}

proof fn lemma_count_same(v: Seq<u128>, w: Seq<u128>, x: u128)
    requires
        v.to_multiset() == w.to_multiset(),
    ensures
        count_less(v, x, v.len()) == count_less(w, x, w.len()),
        count_upto(v, x, v.len()) == count_upto(w, x, w.len()),
        v.len() == w.len(),
    decreases v.len(),
{
    broadcast use vstd::multiset::group_multiset_axioms;

    v.to_multiset_ensures();
    w.to_multiset_ensures();
    if v.len() > 0 {
        let y = v.last();
        let t = v.drop_last();
        assert(v =~= t.push(y));
        t.to_multiset_ensures();
        assert(v.to_multiset().count(y) > 0);
        assert(w.contains(y));
        let p = choose|p: int| 0 <= p < w.len() && w[p] == y;
        let u = w.remove(p);
        assert(w =~= u.insert(p, y));
        crate::sorting::lemma_insert_multiset(u, p, y);
        assert(t.to_multiset() =~= u.to_multiset()) by {
            assert forall|z: u128| t.to_multiset().count(z) == u.to_multiset().count(z) by {
                assert(v.to_multiset().count(z) == w.to_multiset().count(z));
            }
        }
        lemma_count_same(t, u, x);
        lemma_count_removed(w, p, x, w.len());
        lemma_count_prefix(v, t, x, t.len());
    }
}

proof fn lemma_count_prefix(v: Seq<u128>, t: Seq<u128>, x: u128, n: nat)
    requires
        n <= t.len() <= v.len(),
        forall|i: int| 0 <= i < t.len() ==> t[i] == v[i],
    ensures
        count_less(v, x, n) == count_less(t, x, n),
        count_upto(v, x, n) == count_upto(t, x, n),
    decreases n,
{
    if n > 0 {
        lemma_count_prefix(v, t, x, (n - 1) as nat);
    }
}

proof fn lemma_count_removed(w: Seq<u128>, p: int, x: u128, n: nat)
    requires
        0 <= p < w.len(),
        n <= w.len(),
    ensures
        n <= p ==> count_less(w, x, n) == count_less(w.remove(p), x, n) && count_upto(w, x, n)
            == count_upto(w.remove(p), x, n),
        n > p ==> count_less(w, x, n) == count_less(w.remove(p), x, (n - 1) as nat) + if w[p] < x {
            1nat
        } else {
            0
        } && count_upto(w, x, n) == count_upto(w.remove(p), x, (n - 1) as nat) + if w[p] <= x {
            1nat
        } else {
            0
        },
    decreases n,
{
    if n > 0 {
        lemma_count_removed(w, p, x, (n - 1) as nat);
    }
}

proof fn lemma_count_sorted(s: Seq<u128>, r: int, n: nat)
    requires
        0 <= r < s.len(),
        n <= s.len(),
        forall|i: int, j: int| 0 <= i <= j < s.len() ==> s[i] <= s[j],
    ensures
        count_less(s, s[r], n) <= r,
        n > r ==> count_upto(s, s[r], n) >= r + 1,
        n <= r ==> count_upto(s, s[r], n) == n && count_less(s, s[r], n) <= n,
    decreases n,
{
    if n > 0 {
        lemma_count_sorted(s, r, (n - 1) as nat);
        if n - 1 >= r {
            assert(s[r] <= s[n - 1]);
        } else {
            assert(s[n - 1] <= s[r]);
        }
    }
}

/// A percentile is a value such that no more values are less than it than its position
/// says, and at least one more than that is no greater. The median is such a value at
/// half of the number of values.
pub proof fn lemma_percentile_counts(v: Seq<u128>, pct: nat)
    requires
        v.len() > 0,
        pct <= 100,
    ensures
        ({
            let (x, r) = (percentile_of(v, pct), percentile_rank(v.len(), pct));
            &&& v.contains(x)
            &&& count_less(v, x, v.len()) <= r
            &&& count_upto(v, x, v.len()) >= r + 1
        }),
        ({
            let m = median_of(v);
            &&& v.contains(m)
            &&& 2 * count_less(v, m, v.len()) <= v.len()
            &&& 2 * count_upto(v, m, v.len()) >= v.len() + 1
        }),
{
    let s = in_ascending_order(v);
    lemma_in_ascending_order(v);
    lemma_percentile_nearest(v, pct, pct);
    let r = percentile_rank(v.len(), pct) as int;
    let h = v.len() as int / 2;
    lemma_count_same(v, s, s[r]);
    lemma_count_same(v, s, s[h]);
    lemma_count_sorted(s, r, s.len());
    lemma_count_sorted(s, h, s.len());
    v.to_multiset_ensures();
    s.to_multiset_ensures();
    assert(s.contains(s[r]) && s.contains(s[h]));
    assert(s.to_multiset().count(s[r]) > 0 && s.to_multiset().count(s[h]) > 0);
}

/// `mean` is the mean of shares: those that `parts` of `wholes` are.
pub open spec fn is_mean_share(
    mean: Fixed,
    parts: spec_fn(int) -> nat,
    wholes: spec_fn(int) -> nat,
    n: nat,
) -> bool {
    exists|xs: Seq<Fixed>|
        {
            &&& xs.len() == n
            &&& forall|i: int| 0 <= i < n ==> is_share(#[trigger] xs[i], parts(i), wholes(i))
            &&& close(n * mean.raw, #[trigger] exact_total(xs, n), n)
        }
}

/// An evaluation reports the mean recall and the mean precision of the searches, the
/// mean share of hubs among their results, and the median latency.
pub proof fn lemma_evaluation(
    truths: Seq<Seq<usize>>,
    outs: Seq<Seq<usize>>,
    hubs: Seq<usize>,
    k: nat,
    latencies: Seq<u128>,
)
    requires
        0 < outs.len() <= 0x8000_0000,
        truths.len() == outs.len() == latencies.len(),
        0 < k <= 0xFFFF_FFFF,
        forall|i: int|
            0 <= i < outs.len() ==> 0 < (#[trigger] outs[i]).len() <= 0x7FFF
                && outs[i].no_duplicates(),
    ensures
        ({
            let r = evaluation::<Fixed>(truths, outs, hubs, k, latencies);
            let n = outs.len();
            &&& is_mean_share(r.recall, |i: int| common_count(outs[i], truths[i]), |i: int| k, n)
            &&& is_mean_share(
                r.precision,
                |i: int| common_count(outs[i], truths[i]),
                |i: int| outs[i].len(),
                n,
            )
            &&& is_mean_share(
                r.hub_rate,
                |i: int| common_count(outs[i], hubs),
                |i: int| outs[i].len(),
                n,
            )
            &&& r.median_ns == median_of(latencies)
        }),
{
    let n = outs.len();
    let r = evaluation::<Fixed>(truths, outs, hubs, k, latencies);
    let a = recalls::<Fixed>(truths, outs, k);
    let b = precisions::<Fixed>(truths, outs);
    let c = hub_rates::<Fixed>(outs, hubs);
    assert forall|i: int| 0 <= i < n implies is_share(
        #[trigger] a[i],
        common_count(outs[i], truths[i]),
        k,
    ) && 0 <= a[i].raw <= 0x8000_0000 by {
        assert(outs[i].len() > 0);
        lemma_evaluated(truths, outs, k, i);
        lemma_common(outs[i], truths[i]);
        lemma_share_bound(a[i], common_count(outs[i], truths[i]), k);
    }
    assert forall|i: int| 0 <= i < n implies is_share(
        #[trigger] b[i],
        common_count(outs[i], truths[i]),
        outs[i].len(),
    ) && 0 <= b[i].raw <= 0x8000_0000 by {
        assert(outs[i].len() > 0);
        lemma_evaluated(truths, outs, k, i);
        lemma_distinct(outs[i]);
        lemma_common(outs[i], truths[i]);
        lemma_share_bound(b[i], common_count(outs[i], truths[i]), outs[i].len());
    }
    assert forall|i: int| 0 <= i < n implies is_share(
        #[trigger] c[i],
        common_count(outs[i], hubs),
        outs[i].len(),
    ) && 0 <= c[i].raw <= 0x8000_0000 by {
        assert(outs[i].len() > 0);
        lemma_hub_rate(outs, hubs, i);
        lemma_common(outs[i], hubs);
        lemma_share_bound(c[i], common_count(outs[i], hubs), outs[i].len());
    }
    lemma_mean(a);
    lemma_mean(b);
    lemma_mean(c);
    assert(close(n * r.recall.raw, exact_total(a, n), n));
    assert(close(n * r.precision.raw, exact_total(b, n), n));
    assert(close(n * r.hub_rate.raw, exact_total(c, n), n));
}

proof fn lemma_share_bound(r: Fixed, n: nat, k: nat)
    requires
        is_share(r, n, k),
        n <= 0x7FFF,
        k > 0,
    ensures
        0 <= r.raw <= 0x8000_0000,
{
    assert(0 <= r.raw <= 0x8000_0000) by (nonlinear_arith)
        requires
            0 <= r.raw * k <= 0x1_0000 * n,
            n <= 0x7FFF,
            k >= 1,
    ;
}

/// Component `d` of the vectors, as a list.
pub open spec fn component_list(vectors: Seq<Seq<Fixed>>, d: int) -> Seq<Fixed> {
    Seq::new(vectors.len(), |i: int| vectors[i][d])
}

proof fn lemma_column(vectors: Seq<Seq<Fixed>>, d: int, n: nat)
    requires
        n <= vectors.len(),
    ensures
        column_sum(vectors, d, n) == sum_upto(component_list(vectors, d), n),
    decreases n,
{
    if n > 0 {
        lemma_column(vectors, d, (n - 1) as nat);
    }
}

/// The mean of all vectors, times their number, is their sum, component by component and
/// with a unit of rounding for each vector.
pub proof fn lemma_global_mean(vectors: Seq<Seq<Fixed>>, dim: nat, d: int)
    requires
        0 <= d < dim,
        0 < vectors.len() <= 0x8000_0000,
        forall|i: int|
            0 <= i < vectors.len() ==> -0x8000_0000 <= (#[trigger] vectors[i])[d].raw
                <= 0x8000_0000,
    ensures
        global_mean(vectors, dim).len() == dim,
        close(
            vectors.len() * global_mean(vectors, dim)[d].raw,
            exact_total(component_list(vectors, d), vectors.len()),
            vectors.len(),
        ),
{
    let xs = component_list(vectors, d);
    lemma_column(vectors, d, vectors.len());
    assert forall|i: int| 0 <= i < xs.len() implies -0x8000_0000 <= (#[trigger] xs[i]).raw
        <= 0x8000_0000 by {
        assert(xs[i] == vectors[i][d]);
    }
    lemma_mean(xs);
    assert(global_mean(vectors, dim)[d] == mean_of(xs));
}

} // verus!
