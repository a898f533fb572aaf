//! Synthetic datasets whose queries come from a shifted distribution.

use std::collections::HashSet;

use vstd::prelude::*;

use crate::linalg::{sq_l2, sq_l2_of};
use crate::noise::Noise;
use crate::overlap::{distinct, keep_distinct};
use crate::random::{draw_words, std_words};
use crate::scalar::{whole, Scalar};
use crate::sorting::{select_top_k, top_k};
use crate::spaces::payloads;
use crate::table::rows;

verus! {

/// What a dataset is generated from.
#[derive(Clone, Debug)]
pub struct DatasetParams<R> {
    /// The number of base vectors.
    pub n_base: usize,
    /// The number of components.
    pub dim: usize,
    /// The number of clusters.
    pub n_clusters: usize,
    /// The spread of a cluster.
    pub cluster_std: R,
    /// Components of cluster centres lie between the negative of this and this.
    pub cluster_range: R,
    /// How far the centres of the queries are shifted.
    pub ood_shift: R,
    /// The seed of the generator.
    pub seed: u64,
}

impl<R: Scalar> Default for DatasetParams<R> {
    fn default() -> (r: Self)
        ensures
            r.n_base == 5_000,
            r.dim == 64,
            r.n_clusters == 8,
            r.cluster_std == R::ratio_of(1, 2),
            r.cluster_range == whole::<R>(5),
            r.ood_shift == whole::<R>(3),
            r.seed == 42,
    {
        DatasetParams {
            n_base: 5_000,
            dim: 64,
            n_clusters: 8,
            cluster_std: R::ratio(1, 2),
            cluster_range: R::ratio(5, 1),
            ood_shift: R::ratio(3, 1),
            seed: 42,
        }
    }
}

/// A dataset.
pub struct OodDataset<R> {
    /// The base vectors.
    pub base: Vec<Vec<R>>,
    /// Queries to build an index from.
    pub train_queries: Vec<Vec<R>>,
    /// Queries to measure an index with.
    pub test_queries: Vec<Vec<R>>,
    /// The nearest base vectors of each test query.
    pub ground_truth: Vec<HashSet<usize>>,
}

/// The value between `low` and `high` that a word stands for.
pub open spec fn uniform<R: Scalar>(word: u32, low: R, high: R) -> R {
    R::ratio_of((word >> 9) as u64, 0x80_0000).times_of(high.minus_of(low)).plus_of(low)
}

/// The centres of the base clusters.
pub open spec fn base_centres<R: Scalar>(p: DatasetParams<R>, words: Seq<u32>) -> Seq<Seq<R>> {
    let low = R::zero_of().minus_of(p.cluster_range);
    Seq::new(
        p.n_clusters as nat,
        |c: int|
            Seq::new(
                p.dim as nat,
                |j: int| uniform(words[c * p.dim + j], low, p.cluster_range),
            ),
    )
}

/// The centres of the query clusters: those of the base clusters, shifted in the
/// first half of the components.
pub open spec fn query_centres<R: Scalar>(p: DatasetParams<R>, centres: Seq<Seq<R>>) -> Seq<Seq<R>> {
    Seq::new(
        centres.len(),
        |c: int|
            Seq::new(
                centres[c].len(),
                |j: int|
                    if j < p.dim / 2 {
                        centres[c][j].plus_of(p.ood_shift)
                    } else {
                        centres[c][j]
                    },
            ),
    )
}

/// Vectors around the centres, which take turns. Each component takes two words,
/// from `from` on.
pub open spec fn mixture<R: Scalar, N: Noise<R>>(
    noise: N,
    centres: Seq<Seq<R>>,
    dim: nat,
    std: R,
    n: nat,
    words: Seq<u32>,
    from: int,
) -> Seq<Seq<R>> {
    Seq::new(
        n,
        |i: int|
            Seq::new(
                dim,
                |j: int|
                    {
                        let at = from + 2 * (i * dim + j);
                        centres[i % centres.len() as int][j].plus_of(
                            std.times_of(
                                noise.normal_of(
                                    ((words[at] >> 9) * 2) as u32,
                                    words[at + 1] >> 8,
                                ),
                            ),
                        )
                    },
            ),
    )
}

/// The numbers of the `k` vectors nearest to a query.
pub open spec fn nearest_set<R: Scalar>(query: Seq<R>, corpus: Seq<Seq<R>>, k: nat) -> Set<usize> {
    payloads(top_k(numbered(query, corpus), k)).to_set()
}

/// The distance of each vector to a query, with the number of the vector.
pub open spec fn numbered<R: Scalar>(query: Seq<R>, corpus: Seq<Seq<R>>) -> Seq<(u64, usize)> {
    Seq::new(corpus.len(), |i: int| (sq_l2_of(query, corpus[i]).key_of(), i as usize))
}

/// The words that a dataset takes.
pub open spec fn words_taken<R>(p: DatasetParams<R>, n_train: nat, n_test: nat) -> nat {
    p.n_clusters as nat * p.dim as nat + 2 * ((p.n_base + n_train + n_test) as nat * p.dim as nat)
}

/// Finds the `k` vectors nearest to a query.
pub fn exact_knn<R: Scalar>(query: &[R], corpus: &[Vec<R>], k: usize) -> (r: HashSet<usize>)
    ensures
        r@ == nearest_set(query@, rows(corpus@), k as nat),
{
    broadcast use vstd::std_specs::hash::group_hash_axioms;

    let n: usize = corpus.len();
    let ghost all = numbered(query@, rows(corpus@));
    let mut pairs: Vec<(u64, usize)> = Vec::new();
    let mut i: usize = 0;
    while i < n
        invariant
            i <= n,
            n == corpus@.len(),
            all == numbered(query@, rows(corpus@)),
            pairs@ =~= all.take(i as int),
        decreases n - i,
    {
        pairs.push((sq_l2(query, corpus[i].as_slice()).key(), i));
        i += 1;
    }
    assert(all.take(n as int) =~= all);
    let top = select_top_k(pairs.as_slice(), k);
    let ghost list = payloads(top@);
    let count: usize = top.len();
    let mut r: HashSet<usize> = HashSet::new();
    let mut j: usize = 0;
    assert(r@ =~= list.take(0).to_set());
    while j < count
        invariant
            j <= count,
            count == top@.len(),
            list == payloads(top@),
            r@ == list.take(j as int).to_set(),
        decreases count - j,
    {
        let _ = r.insert(top[j].1);
        proof {
            let a = list.take(j as int);
            let b = list.take(j + 1);
            assert(b =~= a.push(list[j as int]));
            assert forall|x: usize| b.to_set().contains(x) <==> a.to_set().insert(
                list[j as int],
            ).contains(x) by {
                if a.contains(x) {
                    let z = choose|z: int| 0 <= z < a.len() && a[z] == x;
                    assert(b[z] == x);
                }
                if x == list[j as int] {
                    assert(b[j as int] == x);
                }
                if b.contains(x) {
                    let z = choose|z: int| 0 <= z < b.len() && b[z] == x;
                    if z < j {
                        assert(a[z] == x);
                    }
                }
            }
            assert(b.to_set() =~= a.to_set().insert(list[j as int]));
        }
        j += 1;
    }
    assert(list.take(count as int) =~= list);
    r
}

/// The number of the first `n` results that are in a set.
pub open spec fn in_set_upto(ids: Seq<usize>, set: Set<usize>, n: nat) -> nat
    decreases n,
{
    if n == 0 {
        0
    } else {
        in_set_upto(ids, set, (n - 1) as nat) + if set.contains(ids[n - 1]) {
            1nat
        } else {
            0
        }
    }
}

/// The number of different results that are true neighbours, over the number of
/// true neighbours.
pub open spec fn recall_of<R: Scalar>(ids: Seq<usize>, truth: Set<usize>) -> R {
    whole::<R>(in_set_upto(distinct(ids), truth, distinct(ids).len()) as u64).over_of(
        whole::<R>(truth.len() as u64),
    )
}

/// The number of different results that are true neighbours, over the number of
/// true neighbours.
pub fn recall_at_k<R: Scalar>(result_ids: &[usize], ground_truth: &HashSet<usize>) -> (r: R)
    ensures
        r == recall_of::<R>(result_ids@, ground_truth@),
{
    broadcast use vstd::std_specs::hash::group_hash_axioms;

    let ids = keep_distinct(result_ids);
    let n: usize = ids.len();
    let mut hit: u64 = 0;
    let mut i: usize = 0;
    while i < n
        invariant
            i <= n,
            n == ids@.len(),
            hit == in_set_upto(ids@, ground_truth@, i as nat),
            hit <= i,
        decreases n - i,
    {
        broadcast use vstd::std_specs::hash::group_hash_axioms;

        if ground_truth.contains(&ids[i]) {
            hit += 1;
        }
        i += 1;
    }
    R::ratio(hit, 1).over(R::ratio(ground_truth.len() as u64, 1))
}

/// Computes the value between `low` and `high` that a word stands for.
fn spread<R: Scalar>(word: u32, low: R, high: R) -> (r: R)
    ensures
        r == uniform(word, low, high),
{
    R::ratio((word >> 9) as u64, 0x80_0000).times(high.minus(low)).plus(low)
}

/// Places vectors around the centres.
fn sample_gmm<R: Scalar, N: Noise<R>>(
    noise: &N,
    centres: &[Vec<R>],
    dim: usize,
    std: R,
    n: usize,
    words: &[u32],
    from: usize,
) -> (r: Vec<Vec<R>>)
    requires
        centres@.len() > 0,
        forall|c: int| 0 <= c < centres@.len() ==> (#[trigger] centres@[c])@.len() == dim,
        from + 2 * (n * dim) <= words@.len(),
    ensures
        rows(r@) == mixture(
            *noise,
            rows(centres@),
            dim as nat,
            std,
            n as nat,
            words@,
            from as int,
        ),
{
    let ghost all = mixture(
        *noise,
        rows(centres@),
        dim as nat,
        std,
        n as nat,
        words@,
        from as int,
    );
    let nc: usize = centres.len();
    let total: usize = words.len();
    let mut r: Vec<Vec<R>> = Vec::new();
    let mut at: usize = from;
    let mut i: usize = 0;
    while i < n
        invariant
            i <= n,
            nc == centres@.len(),
            nc > 0,
            total == words@.len(),
            forall|c: int| 0 <= c < centres@.len() ==> (#[trigger] centres@[c])@.len() == dim,
            from + 2 * (n * dim) <= total,
            at == from + 2 * (i * dim),
            all == mixture(
                *noise,
                rows(centres@),
                dim as nat,
                std,
                n as nat,
                words@,
                from as int,
            ),
            rows(r@) =~= all.take(i as int),
        decreases n - i,
    {
        let centre: &Vec<R> = &centres[i % nc];
        proof {
            assert(rows(centres@)[i as int % nc as int] == centre@);
            assert(i * dim + dim <= n * dim) by (nonlinear_arith)
                requires
                    i + 1 <= n,
            ;
            assert((i + 1) * dim == i * dim + dim) by (nonlinear_arith);
        }
        let mut v: Vec<R> = Vec::new();
        let mut j: usize = 0;
        while j < dim
            invariant
                j <= dim,
                i < n,
                total == words@.len(),
                from + 2 * (n * dim) <= total,
                i * dim + dim <= n * dim,
                centre@.len() == dim,
                centre@ == rows(centres@)[i as int % nc as int],
                nc == rows(centres@).len(),
                at == from + 2 * (i * dim + j),
                all == mixture(
                    *noise,
                    rows(centres@),
                    dim as nat,
                    std,
                    n as nat,
                    words@,
                    from as int,
                ),
                v@ =~= all[i as int].take(j as int),
            decreases dim - j,
        {
            let a: u32 = words[at];
            let b: u32 = words[at + 1];
            assert((a >> 9) < 0x80_0000u32) by (bit_vector);
            assert((b >> 8) < 0x100_0000u32) by (bit_vector);
            let z = noise.normal((a >> 9) * 2, b >> 8);
            v.push(centre[j].plus(std.times(z)));
            at += 2;
            j += 1;
        }
        let ghost done = rows(r@);
        assert(all[i as int].take(dim as int) =~= all[i as int]);
        assert(v@ == all[i as int]);
        r.push(v);
        assert(rows(r@) =~= done.push(v@));
        i += 1;
    }
    assert(all.take(n as int) =~= all);
    r
}

/// The nearest base vectors of each query.
fn find_truth<R: Scalar>(queries: &[Vec<R>], base: &[Vec<R>], k: usize) -> (r: Vec<HashSet<usize>>)
    ensures
        r@.len() == queries@.len(),
        forall|i: int|
            0 <= i < r@.len() ==> (#[trigger] r@[i])@ == nearest_set(
                queries@[i]@,
                rows(base@),
                k as nat,
            ),
{
    let n: usize = queries.len();
    let mut r: Vec<HashSet<usize>> = Vec::new();
    let mut i: usize = 0;
    while i < n
        invariant
            i <= n,
            n == queries@.len(),
            r@.len() == i,
            forall|i: int|
                0 <= i < r@.len() ==> (#[trigger] r@[i])@ == nearest_set(
                    queries@[i]@,
                    rows(base@),
                    k as nat,
                ),
        decreases n - i,
    {
        r.push(exact_knn(queries[i].as_slice(), base, k));
        i += 1;
    }
    r
}

/// What the words of a generator make of the parameters.
pub open spec fn is_dataset<R: Scalar, N: Noise<R>>(
    d: OodDataset<R>,
    noise: N,
    p: DatasetParams<R>,
    n_train: nat,
    n_test: nat,
    k_gt: nat,
    words: Seq<u32>,
) -> bool {
    let dim = p.dim as nat;
    let centres = base_centres(p, words);
    let shifted = query_centres(p, centres);
    let first = p.n_clusters * dim;
    let second = first + 2 * (p.n_base * dim);
    let third = second + 2 * (n_train * dim);
    &&& rows(d.base@) == mixture(noise, centres, dim, p.cluster_std, p.n_base as nat, words, first)
    &&& rows(d.train_queries@) == mixture(
        noise,
        shifted,
        dim,
        p.cluster_std,
        n_train,
        words,
        second,
    )
    &&& rows(d.test_queries@) == mixture(noise, shifted, dim, p.cluster_std, n_test, words, third)
    &&& d.ground_truth@.len() == n_test
    &&& forall|i: int|
        0 <= i < n_test ==> (#[trigger] d.ground_truth@[i])@ == nearest_set(
            rows(d.test_queries@)[i],
            rows(d.base@),
            k_gt,
        )
}

/// Makes a dataset from the words of a generator.
pub fn dataset_from_words<R: Scalar, N: Noise<R>>(
    params: &DatasetParams<R>,
    n_train_queries: usize,
    n_test_queries: usize,
    k_gt: usize,
    words: &[u32],
    noise: &N,
) -> (r: OodDataset<R>)
    requires
        params.n_clusters > 0,
        words@.len() == words_taken(*params, n_train_queries as nat, n_test_queries as nat),
    ensures
        is_dataset(
            r,
            *noise,
            *params,
            n_train_queries as nat,
            n_test_queries as nat,
            k_gt as nat,
            words@,
        ),
{
    let ghost p = *params;
    let dim: usize = params.dim;
    let nc: usize = params.n_clusters;
    let total: usize = words.len();
    let ghost a = p.n_base as nat * dim as nat;
    let ghost b = n_train_queries as nat * dim as nat;
    let ghost c = n_test_queries as nat * dim as nat;
    proof {
        assert((p.n_base + n_train_queries + n_test_queries) as nat * dim as nat == a + b + c)
            by (nonlinear_arith)
            requires
                a == p.n_base as nat * dim as nat,
                b == n_train_queries as nat * dim as nat,
                c == n_test_queries as nat * dim as nat,
        ;
    }
    let low = R::zero().minus(params.cluster_range);
    let ghost all = base_centres(p, words@);
    let mut centres: Vec<Vec<R>> = Vec::new();
    let mut shifted: Vec<Vec<R>> = Vec::new();
    let mut at: usize = 0;
    let mut i: usize = 0;
    while i < nc
        invariant
            i <= nc,
            p == *params,
            dim == p.dim,
            nc == p.n_clusters,
            total == words@.len(),
            nc * dim <= total,
            low == R::zero_of().minus_of(p.cluster_range),
            all == base_centres(p, words@),
            at == i * dim,
            centres@.len() == i,
            shifted@.len() == i,
            forall|c: int|
                0 <= c < i ==> (#[trigger] centres@[c])@ == all[c] && centres@[c]@.len() == dim,
            forall|c: int|
                0 <= c < i ==> (#[trigger] shifted@[c])@ == query_centres(p, all)[c]
                    && shifted@[c]@.len() == dim,
        decreases nc - i,
    {
        proof {
            assert(i * dim + dim <= nc * dim) by (nonlinear_arith)
                requires
                    i + 1 <= nc,
            ;
            assert((i + 1) * dim == i * dim + dim) by (nonlinear_arith);
        }
        let mut v: Vec<R> = Vec::new();
        let mut w: Vec<R> = Vec::new();
        let mut j: usize = 0;
        while j < dim
            invariant
                j <= dim,
                i < nc,
                p == *params,
                dim == p.dim,
                nc == p.n_clusters,
                total == words@.len(),
                i * dim + dim <= total,
                low == R::zero_of().minus_of(p.cluster_range),
                all == base_centres(p, words@),
                at == i * dim + j,
                v@ =~= all[i as int].take(j as int),
                w@ =~= query_centres(p, all)[i as int].take(j as int),
            decreases dim - j,
        {
            let x = spread(words[at], low, params.cluster_range);
            v.push(x);
            if j < dim / 2 {
                w.push(x.plus(params.ood_shift));
            } else {
                w.push(x);
            }
            at += 1;
            j += 1;
        }
        assert(all[i as int].take(dim as int) =~= all[i as int]);
        assert(query_centres(p, all)[i as int].take(dim as int) =~= query_centres(
            p,
            all,
        )[i as int]);
        centres.push(v);
        shifted.push(w);
        i += 1;
    }
    assert(rows(centres@) =~= all);
    assert(rows(shifted@) =~= query_centres(p, all));
    assert(at + 2 * a + 2 * b + 2 * c == total);
    let base = sample_gmm(
        noise,
        centres.as_slice(),
        dim,
        params.cluster_std,
        params.n_base,
        words,
        at,
    );
    let at2: usize = at + 2 * (params.n_base * dim);
    let train_queries = sample_gmm(
        noise,
        shifted.as_slice(),
        dim,
        params.cluster_std,
        n_train_queries,
        words,
        at2,
    );
    let at3: usize = at2 + 2 * (n_train_queries * dim);
    let test_queries = sample_gmm(
        noise,
        shifted.as_slice(),
        dim,
        params.cluster_std,
        n_test_queries,
        words,
        at3,
    );
    let ground_truth = find_truth(test_queries.as_slice(), base.as_slice(), k_gt);
    proof {
        assert(test_queries@.len() == rows(test_queries@).len());
    }
    OodDataset { base, train_queries, test_queries, ground_truth }
}

/// Generates a dataset from the standard generator.
pub fn generate_ood_dataset<R: Scalar, N: Noise<R>>(
    params: &DatasetParams<R>,
    n_train_queries: usize,
    n_test_queries: usize,
    k_gt: usize,
    noise: &N,
) -> (r: OodDataset<R>)
    requires
        params.n_clusters > 0,
        words_taken(*params, n_train_queries as nat, n_test_queries as nat) <= usize::MAX,
        params.n_base + n_train_queries + n_test_queries <= usize::MAX,
    ensures
        is_dataset(
            r,
            *noise,
            *params,
            n_train_queries as nat,
            n_test_queries as nat,
            k_gt as nat,
            std_words(
                params.seed,
                words_taken(*params, n_train_queries as nat, n_test_queries as nat),
            ),
        ),
{
    let all: usize = params.n_base + n_train_queries + n_test_queries;
    let count: usize = params.n_clusters * params.dim + 2 * (all * params.dim);
    let words = draw_words(params.seed, count);
    dataset_from_words(
        params,
        n_train_queries,
        n_test_queries,
        k_gt,
        words.as_slice(),
        noise,
    )
}

} // verus!
