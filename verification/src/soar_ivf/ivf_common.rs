//! What the inverted-file indexes share: training of centroids, posting lists,
//! and the search through the lists of the nearest centroids.

use std::collections::HashMap;

use vstd::layout::size_of;
use vstd::prelude::*;

use crate::bytes::cells;
use crate::cluster::{
    assign_rows, assigned, find_nearest, lemma_members, members, nearest_centre,
};
use crate::flat::{rectangular, Listed, Rows};
use crate::linalg::{sq_l2, sq_l2_of, sum, zeros};
use crate::overlap::{distinct, lemma_distinct};
use crate::scalar::{is_less, less, whole, Scalar, Widen};
use crate::soar_ivf::dataset::{in_range_of, lcg_after, lcg_seeded, lcg_step, Lcg};
use crate::soar_ivf::metrics::Hit;
use crate::sorting::{first_n, lemma_stable_sort, lemma_top_k, select_top_k, sort_by_key, stable_sort, top_k};
use crate::spaces::{payloads, take_payloads};
use crate::table::{copy_row, empty_rows, rows};

verus! {

/// The sum of those of the first `n` rows that are assigned to `c`, in the wider
/// type.
pub open spec fn wide_sum<R: Scalar + Widen<W>, W: Scalar>(
    table: Seq<Seq<R>>,
    assign: Seq<usize>,
    c: usize,
    dim: nat,
    n: nat,
) -> Seq<W>
    decreases n,
{
    if n == 0 {
        zeros(dim)
    } else {
        let rest = wide_sum::<R, W>(table, assign, c, dim, (n - 1) as nat);
        if assign[n - 1] == c {
            sum(rest, widened_row::<R, W>(table[n - 1]))
        } else {
            rest
        }
    }
}

/// A row in the wider type.
pub open spec fn widened_row<R: Scalar + Widen<W>, W: Scalar>(row: Seq<R>) -> Seq<W> {
    Seq::new(row.len(), |i: int| row[i].widened())
}

/// The mean of the rows that are assigned to `c`.
pub open spec fn mean_of<R: Scalar + Widen<W>, W: Scalar>(
    table: Seq<Seq<R>>,
    assign: Seq<usize>,
    c: usize,
    dim: nat,
) -> Seq<R> {
    let total = wide_sum::<R, W>(table, assign, c, dim, table.len());
    let count = members(assign, c, table.len());
    Seq::new(
        total.len(),
        |i: int| <R as Widen<W>>::narrowed(total[i].over_of(whole::<W>(count as u64))),
    )
}

/// The row that the draw of generator state `s` selects.
pub open spec fn drawn_row(s: u64, n: nat) -> int {
    in_range_of(s, 0, n as usize)
}

/// The first `k` seeds: rows drawn evenly.
pub open spec fn seeds<R>(table: Seq<Seq<R>>, k: nat, s: u64) -> Seq<Seq<R>> {
    Seq::new(k, |i: int| table[drawn_row(lcg_after(s, (i + 1) as nat), table.len())])
}

/// The first `c` new centroids of an iteration, and the state of the generator.
/// A centroid without rows moves to a row drawn at random.
pub open spec fn refreshed<R: Scalar + Widen<W>, W: Scalar>(
    table: Seq<Seq<R>>,
    assign: Seq<usize>,
    dim: nat,
    c: nat,
    s: u64,
) -> (Seq<Seq<R>>, u64)
    decreases c,
{
    if c == 0 {
        (Seq::empty(), s)
    } else {
        let before = refreshed::<R, W>(table, assign, dim, (c - 1) as nat, s);
        if members(assign, (c - 1) as usize, table.len()) > 0 {
            (before.0.push(mean_of::<R, W>(table, assign, (c - 1) as usize, dim)), before.1)
        } else {
            let state = lcg_step(before.1);
            (before.0.push(table[drawn_row(state, table.len())]), state)
        }
    }
}

/// The centroids after `iters` iterations, and the state of the generator.
pub open spec fn trained<R: Scalar + Widen<W>, W: Scalar>(
    table: Seq<Seq<R>>,
    dim: nat,
    k: nat,
    iters: nat,
    s: u64,
) -> (Seq<Seq<R>>, u64)
    decreases iters,
{
    if iters == 0 {
        (seeds(table, k, s), lcg_after(s, k))
    } else {
        let before = trained::<R, W>(table, dim, k, (iters - 1) as nat, s);
        refreshed::<R, W>(table, assigned(table, before.0), dim, k, before.1)
    }
}

proof fn lemma_wide_sum<R: Scalar + Widen<W>, W: Scalar>(
    table: Seq<Seq<R>>,
    assign: Seq<usize>,
    c: usize,
    dim: nat,
    n: nat,
)
    requires
        rectangular(table, dim),
        n <= table.len(),
    ensures
        wide_sum::<R, W>(table, assign, c, dim, n).len() == dim,
    decreases n,
{
    if n > 0 {
        lemma_wide_sum::<R, W>(table, assign, c, dim, (n - 1) as nat);
    }
}

proof fn lemma_refreshed<R: Scalar + Widen<W>, W: Scalar>(
    table: Seq<Seq<R>>,
    assign: Seq<usize>,
    dim: nat,
    c: nat,
    s: u64,
)
    requires
        0 < table.len() <= usize::MAX,
        rectangular(table, dim),
    ensures
        refreshed::<R, W>(table, assign, dim, c, s).0.len() == c,
        rectangular(refreshed::<R, W>(table, assign, dim, c, s).0, dim),
    decreases c,
{
    if c > 0 {
        lemma_refreshed::<R, W>(table, assign, dim, (c - 1) as nat, s);
        lemma_wide_sum::<R, W>(table, assign, (c - 1) as usize, dim, table.len());
        let before = refreshed::<R, W>(table, assign, dim, (c - 1) as nat, s);
        let p = drawn_row(lcg_step(before.1), table.len());
        assert(0 <= p < table.len());
        assert(table[p].len() == dim);
    }
}

/// Training yields `k` centroids with as many components as the rows.
pub proof fn lemma_trained<R: Scalar + Widen<W>, W: Scalar>(
    table: Seq<Seq<R>>,
    dim: nat,
    k: nat,
    iters: nat,
    s: u64,
)
    requires
        0 < table.len() <= usize::MAX,
        rectangular(table, dim),
    ensures
        trained::<R, W>(table, dim, k, iters, s).0.len() == k,
        rectangular(trained::<R, W>(table, dim, k, iters, s).0, dim),
    decreases iters,
{
    if iters == 0 {
        let all = seeds(table, k, s);
        assert forall|i: int| 0 <= i < k implies (#[trigger] all[i]).len() == dim by {
            let p = drawn_row(lcg_after(s, (i + 1) as nat), table.len());
            assert(0 <= p < table.len());
            assert(table[p].len() == dim);
        }
    } else {
        lemma_trained::<R, W>(table, dim, k, (iters - 1) as nat, s);
        let before = trained::<R, W>(table, dim, k, (iters - 1) as nat, s);
        lemma_refreshed::<R, W>(table, assigned(table, before.0), dim, k, before.1);
    }
}

/// The distance of each centroid to `x`, with the number of the centroid.
pub open spec fn centroid_keys<R: Scalar>(x: Seq<R>, centroids: Seq<Seq<R>>) -> Seq<(u64, usize)> {
    Seq::new(centroids.len(), |i: int| (sq_l2_of(x, centroids[i]).key_of(), i as usize))
}

/// The centroids by ascending distance to `x`.
pub open spec fn ranking<R: Scalar>(x: Seq<R>, centroids: Seq<Seq<R>>) -> Seq<usize> {
    payloads(stable_sort(centroid_keys(x, centroids)))
}

/// The centroids nearest to a query.
pub open spec fn probed<R: Scalar>(query: Seq<R>, centroids: Seq<Seq<R>>, n_probe: nat) -> Seq<usize> {
    first_n(ranking(query, centroids), n_probe)
}

/// A ranking holds each centroid once, by ascending distance and number.
pub proof fn lemma_ranking<R: Scalar>(x: Seq<R>, centroids: Seq<Seq<R>>)
    requires
        centroids.len() <= usize::MAX,
    ensures
        ranking(x, centroids).len() == centroids.len(),
        forall|i: int|
            0 <= i < centroids.len() ==> (#[trigger] ranking(x, centroids)[i]) < centroids.len(),
        forall|i: int, j: int|
            0 <= i < j < centroids.len() ==> {
                let a = #[trigger] ranking(x, centroids)[i];
                let b = #[trigger] ranking(x, centroids)[j];
                let da = sq_l2_of(x, centroids[a as int]).key_of();
                let db = sq_l2_of(x, centroids[b as int]).key_of();
                da < db || (da == db && a < b)
            },
        forall|c: usize| c < centroids.len() ==> ranking(x, centroids).contains(c),
{
    let all = centroid_keys(x, centroids);
    let sorted = stable_sort(all);
    lemma_stable_sort(all);
    crate::sorting::lemma_stable_sort_positions(all);
    let pos = stable_sort(crate::sorting::indexed(all));
    assert(crate::sorting::indexed(all) =~= all);
    assert forall|i: int| 0 <= i < centroids.len() implies (#[trigger] ranking(x, centroids)[i])
        < centroids.len() && sorted[i].0 == sq_l2_of(
        x,
        centroids[ranking(x, centroids)[i] as int],
    ).key_of() by {
        assert(sorted[i] == all[pos[i].1 as int]);
    }
    assert forall|i: int, j: int| 0 <= i < j < centroids.len() implies {
        let a = #[trigger] ranking(x, centroids)[i];
        let b = #[trigger] ranking(x, centroids)[j];
        let da = sq_l2_of(x, centroids[a as int]).key_of();
        let db = sq_l2_of(x, centroids[b as int]).key_of();
        da < db || (da == db && a < b)
    } by {
        assert(pos[i].0 < pos[j].0 || (pos[i].0 == pos[j].0 && pos[i].1 < pos[j].1));
    }
    assert forall|c: usize| c < centroids.len() implies ranking(x, centroids).contains(c) by {
        assert(all.contains(all[c as int]));
        crate::sorting::lemma_stable_sort_contains(all, all[c as int]);
        let i = choose|i: int| 0 <= i < sorted.len() && sorted[i] == all[c as int];
        assert(ranking(x, centroids)[i] == c);
    }
}

/// Centroids of an inverted file.
pub struct Centroids<R> {
    pub vecs: Vec<Vec<R>>,
    pub dims: usize,
}

/// Sums up the rows of each centroid in the wider type, and counts them.
fn sum_wide<R: Scalar + Widen<W>, W: Scalar>(
    table: &[Vec<R>],
    assign: &[usize],
    k: usize,
    dim: usize,
) -> (r: (Vec<Vec<W>>, Vec<usize>))
    requires
        rectangular(rows(table@), dim as nat),
        assign@.len() == table@.len(),
        forall|i: int| 0 <= i < assign@.len() ==> (#[trigger] assign@[i]) < k,
    ensures
        r.0@.len() == k,
        r.1@.len() == k,
        forall|c: int|
            0 <= c < k ==> (#[trigger] r.0@[c])@ == wide_sum::<R, W>(
                rows(table@),
                assign@,
                c as usize,
                dim as nat,
                table@.len(),
            ),
        forall|c: int|
            0 <= c < k ==> #[trigger] r.1@[c] == members(assign@, c as usize, table@.len()),
{
    let n: usize = table.len();
    let ghost all = rows(table@);
    let mut sums: Vec<Vec<W>> = Vec::new();
    let mut counts: Vec<usize> = Vec::new();
    let mut j: usize = 0;
    while j < k
        invariant
            j <= k,
            sums@.len() == j,
            counts@.len() == j,
            forall|c: int| 0 <= c < j ==> (#[trigger] sums@[c])@ == zeros::<W>(dim as nat),
            forall|c: int| 0 <= c < j ==> #[trigger] counts@[c] == 0,
        decreases k - j,
    {
        sums.push(crate::linalg::zero_vec(dim));
        counts.push(0);
        j += 1;
    }
    let mut i: usize = 0;
    while i < n
        invariant
            i <= n,
            n == table@.len(),
            all == rows(table@),
            rectangular(all, dim as nat),
            assign@.len() == n,
            forall|i: int| 0 <= i < assign@.len() ==> (#[trigger] assign@[i]) < k,
            sums@.len() == k,
            counts@.len() == k,
            forall|c: int|
                0 <= c < k ==> (#[trigger] sums@[c])@ == wide_sum::<R, W>(
                    all,
                    assign@,
                    c as usize,
                    dim as nat,
                    i as nat,
                ),
            forall|c: int|
                0 <= c < k ==> #[trigger] counts@[c] == members(assign@, c as usize, i as nat),
        decreases n - i,
    {
        let a: usize = assign[i];
        assert(assign@[i as int] < k);
        proof {
            lemma_members(assign@, a, i as nat);
            lemma_wide_sum::<R, W>(all, assign@, a, dim as nat, i as nat);
        }
        let seen: usize = counts[a];
        assert(seen <= i);
        counts.set(a, seen + 1);
        let row: &Vec<R> = &table[i];
        assert(all[i as int] == row@);
        assert(row@.len() == dim);
        let ghost before = sums@[a as int]@;
        let ghost wide = widened_row::<R, W>(row@);
        let mut next: Vec<W> = Vec::new();
        let mut d: usize = 0;
        while d < dim
            invariant
                d <= dim,
                row@.len() == dim,
                a < k,
                sums@.len() == k,
                before == sums@[a as int]@,
                before.len() == dim,
                wide == widened_row::<R, W>(row@),
                next@ =~= sum(before, wide).take(d as int),
            decreases dim - d,
        {
            next.push(sums[a][d].plus(row[d].widen()));
            d += 1;
        }
        assert(sum(before, wide).take(dim as int) =~= sum(before, wide));
        sums.set(a, next);
        i += 1;
    }
    (sums, counts)
}

impl<R: Scalar> Centroids<R> {
    /// The centroids.
    pub open spec fn all(&self) -> Seq<Seq<R>> {
        rows(self.vecs@)
    }

    /// Trains `k` centroids from rows drawn at random, in `iters` iterations.
    pub fn train<W: Scalar>(vectors: &[Vec<R>], k: usize, iters: usize, seed: u64) -> (r:
        Self) where R: Widen<W>
        requires
            vectors@.len() > 0,
            k >= 1,
            rectangular(rows(vectors@), vectors@[0]@.len()),
        ensures
            r.dims == vectors@[0]@.len(),
            r.all() == trained::<R, W>(
                rows(vectors@),
                r.dims as nat,
                k as nat,
                iters as nat,
                lcg_seeded(seed),
            ).0,
            r.all().len() == k,
            rectangular(r.all(), r.dims as nat),
    {
        let n: usize = vectors.len();
        let dims: usize = vectors[0].len();
        let ghost table = rows(vectors@);
        let ghost d = dims as nat;
        let ghost s = lcg_seeded(seed);
        let mut rng = Lcg::new(seed);
        let mut centroids: Vec<Vec<R>> = Vec::new();
        let mut i: usize = 0;
        while i < k
            invariant
                i <= k,
                n == vectors@.len(),
                n > 0,
                table == rows(vectors@),
                rng@ == lcg_after(s, i as nat),
                rows(centroids@) =~= seeds(table, i as nat, s),
            decreases k - i,
        {
            let at: usize = rng.next_range(0, n);
            let row = copy_row(vectors[at].as_slice());
            let ghost done = rows(centroids@);
            centroids.push(row);
            proof {
                assert(rows(centroids@) =~= done.push(row@));
                assert(row@ == table[drawn_row(lcg_after(s, (i + 1) as nat), table.len())]);
            }
            i += 1;
        }
        let mut t: usize = 0;
        while t < iters
            invariant
                t <= iters,
                n == vectors@.len(),
                n > 0,
                k >= 1,
                d == dims,
                table == rows(vectors@),
                rectangular(table, d),
                rows(centroids@) == trained::<R, W>(table, d, k as nat, t as nat, s).0,
                rng@ == trained::<R, W>(table, d, k as nat, t as nat, s).1,
            decreases iters - t,
        {
            proof {
                lemma_trained::<R, W>(table, d, k as nat, t as nat, s);
                assert(rows(centroids@).len() == centroids@.len());
            }
            let listed = Listed { list: vectors };
            let assign = assign_rows(&listed, centroids.as_slice());
            let (sums, counts) = sum_wide::<R, W>(vectors, assign.as_slice(), k, dims);
            let ghost st = rng@;
            let mut fresh: Vec<Vec<R>> = Vec::new();
            let mut c: usize = 0;
            assert(rows(fresh@) =~= Seq::<Seq<R>>::empty());
            while c < k
                invariant
                    c <= k,
                    n == vectors@.len(),
                    n > 0,
                    d == dims,
                    table == rows(vectors@),
                    rectangular(table, d),
                    sums@.len() == k,
                    counts@.len() == k,
                    forall|c: int|
                        0 <= c < k ==> (#[trigger] sums@[c])@ == wide_sum::<R, W>(
                            table,
                            assign@,
                            c as usize,
                            d,
                            n as nat,
                        ),
                    forall|c: int|
                        0 <= c < k ==> #[trigger] counts@[c] == members(
                            assign@,
                            c as usize,
                            n as nat,
                        ),
                    rows(fresh@) == refreshed::<R, W>(table, assign@, d, c as nat, st).0,
                    rng@ == refreshed::<R, W>(table, assign@, d, c as nat, st).1,
                    fresh@.len() == c,
                decreases k - c,
            {
                let ghost done = rows(fresh@);
                if counts[c] > 0 {
                    proof {
                        lemma_wide_sum::<R, W>(table, assign@, c, d, n as nat);
                    }
                    let count = W::ratio(counts[c] as u64, 1);
                    let ghost wanted = mean_of::<R, W>(table, assign@, c, d);
                    let mut mean: Vec<R> = Vec::new();
                    let mut x: usize = 0;
                    while x < dims
                        invariant
                            x <= dims,
                            c < k,
                            sums@.len() == k,
                            sums@[c as int]@ == wide_sum::<R, W>(table, assign@, c, d, n as nat),
                            sums@[c as int]@.len() == dims,
                            n == table.len(),
                            count == whole::<W>(members(assign@, c, n as nat) as u64),
                            wanted == mean_of::<R, W>(table, assign@, c, d),
                            mean@ =~= wanted.take(x as int),
                        decreases dims - x,
                    {
                        mean.push(<R as Widen<W>>::narrow(sums[c][x].over(count)));
                        x += 1;
                    }
                    assert(wanted.take(dims as int) =~= wanted);
                    fresh.push(mean);
                    assert(rows(fresh@) =~= done.push(mean@));
                } else {
                    let at: usize = rng.next_range(0, n);
                    let row = copy_row(vectors[at].as_slice());
                    fresh.push(row);
                    assert(rows(fresh@) =~= done.push(row@));
                }
                c += 1;
            }
            centroids = fresh;
            t += 1;
        }
        proof {
            lemma_trained::<R, W>(table, d, k as nat, iters as nat, s);
        }
        Centroids { vecs: centroids, dims }
    }

    /// The `n_probe` centroids nearest to a query, by ascending distance.
    pub fn probe(&self, query: &[R], n_probe: usize) -> (r: Vec<usize>)
        ensures
            r@ == probed(query@, self.all(), n_probe as nat),
            r@.len() == if n_probe <= self.all().len() {
                n_probe as nat
            } else {
                self.all().len()
            },
            forall|i: int| 0 <= i < r@.len() ==> (#[trigger] r@[i]) < self.all().len(),
    {
        let count: usize = self.vecs.len();
        let pairs = key_centroids(query, self.vecs.as_slice());
        let top = select_top_k(pairs.as_slice(), n_probe);
        let r = take_payloads(top.as_slice());
        proof {
            assert(self.all().len() == count);
            lemma_ranking(query@, self.all());
            assert(r@ =~= probed(query@, self.all(), n_probe as nat));
        }
        r
    }

    /// The number of centroids.
    pub fn len(&self) -> (r: usize)
        ensures
            r == self.all().len(),
    {
        self.vecs.len()
    }

    /// Whether there are no centroids.
    pub fn is_empty(&self) -> (r: bool)
        ensures
            r == (self.all().len() == 0),
    {
        self.vecs.len() == 0
    }
}

fn key_centroids<R: Scalar>(x: &[R], centroids: &[Vec<R>]) -> (r: Vec<(u64, usize)>)
    ensures
        r@ == centroid_keys(x@, rows(centroids@)),
{
    let n: usize = centroids.len();
    let ghost all = centroid_keys(x@, rows(centroids@));
    let mut r: Vec<(u64, usize)> = Vec::new();
    let mut i: usize = 0;
    while i < n
        invariant
            i <= n,
            n == centroids@.len(),
            all == centroid_keys(x@, rows(centroids@)),
            r@ =~= all.take(i as int),
        decreases n - i,
    {
        r.push((sq_l2(x, centroids[i].as_slice()).key(), i));
        i += 1;
    }
    assert(all.take(n as int) =~= all);
    r
}

/// The centroid nearest to `v`.
pub fn nearest_centroid_idx<R: Scalar>(v: &[R], centroids: &[Vec<R>]) -> (r: usize)
    ensures
        r == nearest_centre(v@, rows(centroids@)),
        centroids@.len() > 0 ==> r < centroids@.len(),
{
    find_nearest(v, centroids)
}

/// The centroids with their distances.
pub open spec fn with_distances<R: Scalar>(
    x: Seq<R>,
    centroids: Seq<Seq<R>>,
    order: Seq<usize>,
) -> Seq<(usize, R)> {
    Seq::new(order.len(), |i: int| (order[i], sq_l2_of(x, centroids[order[i] as int])))
}

/// The centroids and their distances to `v`, by ascending distance.
pub fn rank_centroids<R: Scalar>(v: &[R], centroids: &[Vec<R>]) -> (r: Vec<(usize, R)>)
    ensures
        r@ == with_distances(v@, rows(centroids@), ranking(v@, rows(centroids@))),
        r@.len() == centroids@.len(),
        forall|i: int| 0 <= i < r@.len() ==> (#[trigger] r@[i]).0 < centroids@.len(),
{
    let count: usize = centroids.len();
    let pairs = key_centroids(v, centroids);
    let sorted = sort_by_key(pairs.as_slice());
    let order = take_payloads(sorted.as_slice());
    let ghost all = rows(centroids@);
    proof {
        assert(all.len() == count);
        lemma_ranking(v@, all);
    }
    let n: usize = order.len();
    let ghost out = with_distances(v@, all, order@);
    let mut r: Vec<(usize, R)> = Vec::new();
    let mut i: usize = 0;
    while i < n
        invariant
            i <= n,
            n == order@.len(),
            n == centroids@.len(),
            all == rows(centroids@),
            out == with_distances(v@, all, order@),
            forall|x: int| 0 <= x < n ==> (#[trigger] order@[x]) < n,
            r@ =~= out.take(i as int),
        decreases n - i,
    {
        let c: usize = order[i];
        assert(order@[i as int] < n);
        r.push((c, sq_l2(v, centroids[c].as_slice())));
        i += 1;
    }
    assert(out.take(n as int) =~= out);
    r
}

/// One posting list per centroid, and for each posting the distance of the
/// vector to the centroid.
pub struct PostingLists<R> {
    pub lists: Vec<Vec<usize>>,
    pub residual_norms: Vec<Vec<R>>,
    /// The number of vectors that are in more than one list.
    pub dup_count: usize,
    pub total_entries: usize,
}

impl<R: Scalar> PostingLists<R> {
    /// Every posting has a distance, and all are counted.
    pub open spec fn wf(&self) -> bool {
        &&& self.lists@.len() == self.residual_norms@.len()
        &&& forall|c: int|
            0 <= c < self.lists@.len() ==> (#[trigger] self.lists@[c])@.len()
                == self.residual_norms@[c]@.len()
        &&& self.total_entries == cells(rows(self.lists@))
    }

    /// Empty lists for `n_centroids` centroids.
    pub fn new(n_centroids: usize) -> (r: Self)
        ensures
            r.wf(),
            rows(r.lists@) == Seq::new(n_centroids as nat, |i: int| Seq::<usize>::empty()),
            rows(r.residual_norms@) == Seq::new(n_centroids as nat, |i: int| Seq::<R>::empty()),
            r.dup_count == 0,
            r.total_entries == 0,
    {
        let lists: Vec<Vec<usize>> = empty_rows(n_centroids);
        let residual_norms: Vec<Vec<R>> = empty_rows(n_centroids);
        proof {
            lemma_no_cells(rows(lists@));
            assert(rows(lists@).len() == lists@.len());
            assert(rows(residual_norms@).len() == residual_norms@.len());
            assert forall|c: int| 0 <= c < lists@.len() implies (#[trigger] lists@[c])@.len()
                == residual_norms@[c]@.len() by {
                assert(rows(lists@)[c].len() == 0);
                assert(rows(residual_norms@)[c].len() == 0);
            }
        }
        PostingLists { lists, residual_norms, dup_count: 0, total_entries: 0 }
    }

    /// Adds a posting.
    pub fn push_with_norm(&mut self, centroid: usize, id: usize, res_norm: R)
        requires
            old(self).wf(),
            centroid < old(self).lists@.len(),
            old(self).total_entries < usize::MAX,
        ensures
            final(self).wf(),
            rows(final(self).lists@) == rows(old(self).lists@).update(
                centroid as int,
                rows(old(self).lists@)[centroid as int].push(id),
            ),
            rows(final(self).residual_norms@) == rows(old(self).residual_norms@).update(
                centroid as int,
                rows(old(self).residual_norms@)[centroid as int].push(res_norm),
            ),
            final(self).dup_count == old(self).dup_count,
            final(self).total_entries == old(self).total_entries + 1,
    {
        let ghost before = rows(self.lists@);
        let ghost norms = rows(self.residual_norms@);
        assert(self.lists@[centroid as int]@.len() == self.residual_norms@[centroid as int]@.len());
        self.lists[centroid].push(id);
        self.residual_norms[centroid].push(res_norm);
        self.total_entries = self.total_entries + 1;
        proof {
            let c = centroid as int;
            assert(rows(self.lists@) =~= before.update(c, before[c].push(id)));
            assert(rows(self.residual_norms@) =~= norms.update(c, norms[c].push(res_norm)));
            lemma_cells_push(before, c, id);
            assert forall|x: int| 0 <= x < self.lists@.len() implies (
            #[trigger] self.lists@[x])@.len() == self.residual_norms@[x]@.len() by {
                assert(old(self).lists@[x]@.len() == old(self).residual_norms@[x]@.len());
            }
        }
    }
}

proof fn lemma_no_cells<A>(table: Seq<Seq<A>>)
    requires
        forall|i: int| 0 <= i < table.len() ==> (#[trigger] table[i]).len() == 0,
    ensures
        cells(table) == 0,
    decreases table.len(),
{
    if table.len() > 0 {
        let t = table.drop_last();
        assert forall|i: int| 0 <= i < t.len() implies (#[trigger] t[i]).len() == 0 by {
            assert(t[i] == table[i]);
        }
        lemma_no_cells(t);
        assert(table[table.len() - 1].len() == 0);
    }
}

/// A table has one cell more after a push to one row.
pub proof fn lemma_cells_push<A>(table: Seq<Seq<A>>, c: int, x: A)
    requires
        0 <= c < table.len(),
    ensures
        cells(table.update(c, table[c].push(x))) == cells(table) + 1,
    decreases table.len(),
{
    let t = table.update(c, table[c].push(x));
    if c == table.len() - 1 {
        assert(t.drop_last() =~= table.drop_last());
    } else {
        lemma_cells_push(table.drop_last(), c, x);
        assert(t.drop_last() =~= table.drop_last().update(c, table.drop_last()[c].push(x)));
    }
}

/// The entries of the lists of the first `n` probed centroids.
pub open spec fn gathered(lists: Seq<Seq<usize>>, order: Seq<usize>, n: nat) -> Seq<usize>
    decreases n,
{
    if n == 0 {
        Seq::empty()
    } else {
        gathered(lists, order, (n - 1) as nat) + lists[order[n - 1] as int]
    }
}

/// Hits with the keys of their distances.
pub open spec fn keyed_hits<R: Scalar>(found: Seq<Hit<R>>) -> Seq<(u64, Hit<R>)> {
    Seq::new(found.len(), |i: int| (found[i].dist.key_of(), found[i]))
}

/// Vectors as hits for a query.
pub open spec fn exact_hits<R: Scalar>(
    query: Seq<R>,
    vectors: Seq<Seq<R>>,
    ids: Seq<usize>,
) -> Seq<Hit<R>> {
    Seq::new(
        ids.len(),
        |i: int| Hit { id: ids[i], dist: sq_l2_of(query, vectors[ids[i] as int]) },
    )
}

/// What an exact search returns: the vectors in the lists of the nearest
/// centroids, each once, and of them the `k` nearest ones.
pub open spec fn scanned<R: Scalar>(
    query: Seq<R>,
    k: nat,
    n_probe: nat,
    centroids: Seq<Seq<R>>,
    lists: Seq<Seq<usize>>,
    vectors: Seq<Seq<R>>,
) -> Seq<Hit<R>> {
    let order = probed(query, centroids, n_probe);
    payloads(
        top_k(
            keyed_hits(
                exact_hits(query, vectors, distinct(gathered(lists, order, order.len()))),
            ),
            k,
        ),
    )
}

/// Every posting is the number of a vector.
pub open spec fn postings_below(lists: Seq<Seq<usize>>, n: nat) -> bool {
    forall|c: int, i: int|
        0 <= c < lists.len() && 0 <= i < lists[c].len() ==> (#[trigger] lists[c][i]) < n
}

/// Sorts hits and takes the first `k`.
fn nearest_hits<R: Scalar>(found: &[Hit<R>], k: usize) -> (r: Vec<Hit<R>>)
    ensures
        r@ == payloads(top_k(keyed_hits(found@), k as nat)),
{
    let n: usize = found.len();
    let ghost all = keyed_hits(found@);
    let mut pairs: Vec<(u64, Hit<R>)> = Vec::new();
    let mut i: usize = 0;
    while i < n
        invariant
            i <= n,
            n == found@.len(),
            all == keyed_hits(found@),
            pairs@ =~= all.take(i as int),
        decreases n - i,
    {
        let hit = Hit { id: found[i].id, dist: found[i].dist };
        pairs.push((hit.dist.key(), hit));
        i += 1;
    }
    assert(all.take(n as int) =~= all);
    let top = select_top_k(pairs.as_slice(), k);
    take_payloads(top.as_slice())
}

/// Scans the lists of the nearest centroids, and returns the `k` nearest vectors
/// by exact distance.
pub fn probe_and_scan<R: Scalar>(
    query: &[R],
    k: usize,
    n_probe: usize,
    centroids: &Centroids<R>,
    lists: &PostingLists<R>,
    vectors: &[Vec<R>],
) -> (r: Vec<Hit<R>>)
    requires
        centroids.all().len() <= lists.lists@.len(),
        postings_below(rows(lists.lists@), vectors@.len()),
    ensures
        r@ == scanned(
            query@,
            k as nat,
            n_probe as nat,
            centroids.all(),
            rows(lists.lists@),
            rows(vectors@),
        ),
        r@.len() <= k,
{
    let order = centroids.probe(query, n_probe);
    let n: usize = vectors.len();
    let ghost table = rows(lists.lists@);
    let mut seen: Vec<bool> = Vec::new();
    let mut x: usize = 0;
    while x < n
        invariant
            x <= n,
            seen@.len() == x,
            forall|i: int| 0 <= i < x ==> !(#[trigger] seen@[i]),
        decreases n - x,
    {
        seen.push(false);
        x += 1;
    }
    let mut cands: Vec<usize> = Vec::new();
    let total: usize = order.len();
    let mut p: usize = 0;
    while p < total
        invariant
            p <= total,
            total == order@.len(),
            n == vectors@.len(),
            table == rows(lists.lists@),
            postings_below(table, n as nat),
            forall|i: int| 0 <= i < total ==> (#[trigger] order@[i]) < table.len(),
            seen@.len() == n,
            cands@ == distinct(gathered(table, order@, p as nat)),
            forall|i: int| 0 <= i < n ==> (#[trigger] seen@[i] <==> cands@.contains(i as usize)),
        decreases total - p,
    {
        let c: usize = order[p];
        assert(order@[p as int] < table.len());
        let ghost list = table[c as int];
        assert(list == lists.lists@[c as int]@);
        let ghost before = gathered(table, order@, p as nat);
        let count: usize = lists.lists[c].len();
        let mut i: usize = 0;
        assert(before + list.take(0) =~= before);
        while i < count
            invariant
                i <= count,
                c < lists.lists@.len(),
                count == list.len(),
                list == lists.lists@[c as int]@,
                forall|i: int| 0 <= i < list.len() ==> (#[trigger] list[i]) < n,
                seen@.len() == n,
                cands@ == distinct(before + list.take(i as int)),
                forall|i: int|
                    0 <= i < n ==> (#[trigger] seen@[i] <==> cands@.contains(i as usize)),
            decreases count - i,
        {
            let id: usize = lists.lists[c][i];
            assert(list[i as int] < n);
            let ghost was = cands@;
            proof {
                let longer = before + list.take(i + 1);
                assert(longer.drop_last() =~= before + list.take(i as int));
                assert(longer.last() == list[i as int]);
            }
            if !seen[id] {
                seen.set(id, true);
                cands.push(id);
                proof {
                    assert forall|j: int| 0 <= j < n implies (#[trigger] seen@[j]
                        <==> cands@.contains(j as usize)) by {
                        if was.contains(j as usize) {
                            let z = choose|z: int| 0 <= z < was.len() && was[z] == j as usize;
                            assert(cands@[z] == j as usize);
                        }
                        if j == id {
                            assert(cands@[cands@.len() - 1] == id);
                        }
                        if cands@.contains(j as usize) && j != id {
                            let z = choose|z: int|
                                0 <= z < cands@.len() && cands@[z] == j as usize;
                            assert(was[z] == j as usize);
                        }
                    }
                }
            }
            i += 1;
        }
        assert(list.take(count as int) =~= list);
        p += 1;
    }
    let ghost found = exact_hits(query@, rows(vectors@), cands@);
    let many: usize = cands.len();
    let mut hits: Vec<Hit<R>> = Vec::new();
    let mut j: usize = 0;
    proof {
        lemma_gathered_below(table, order@, total as nat, n as nat);
        lemma_distinct(gathered(table, order@, total as nat));
        assert forall|i: int| 0 <= i < cands@.len() implies (#[trigger] cands@[i]) < n by {
            assert(cands@.contains(cands@[i]));
            let all = gathered(table, order@, total as nat);
            assert(all.contains(cands@[i]));
            let z = choose|z: int| 0 <= z < all.len() && all[z] == cands@[i];
            assert(all[z] < n);
        }
    }
    while j < many
        invariant
            j <= many,
            many == cands@.len(),
            n == vectors@.len(),
            forall|i: int| 0 <= i < cands@.len() ==> (#[trigger] cands@[i]) < n,
            found == exact_hits(query@, rows(vectors@), cands@),
            hits@ =~= found.take(j as int),
        decreases many - j,
    {
        let id: usize = cands[j];
        assert(cands@[j as int] < n);
        hits.push(Hit { id, dist: sq_l2(query, vectors[id].as_slice()) });
        j += 1;
    }
    assert(found.take(many as int) =~= found);
    proof {
        lemma_top_k(keyed_hits(found), k as nat);
    }
    nearest_hits(hits.as_slice(), k)
}

pub proof fn lemma_gathered_below(lists: Seq<Seq<usize>>, order: Seq<usize>, n: nat, bound: nat)
    requires
        postings_below(lists, bound),
        n <= order.len(),
        forall|i: int| 0 <= i < order.len() ==> (#[trigger] order[i]) < lists.len(),
    ensures
        forall|i: int|
            0 <= i < gathered(lists, order, n).len() ==> (#[trigger] gathered(lists, order, n)[i])
                < bound,
    decreases n,
{
    if n > 0 {
        lemma_gathered_below(lists, order, (n - 1) as nat, bound);
        let rest = gathered(lists, order, (n - 1) as nat);
        let c = order[n - 1] as int;
        assert(order[n - 1] < lists.len());
        let all = gathered(lists, order, n);
        assert forall|i: int| 0 <= i < all.len() implies (#[trigger] all[i]) < bound by {
            if i < rest.len() {
                assert(all[i] == rest[i]);
            } else {
                assert(all[i] == lists[c][i - rest.len()]);
            }
        }
    }
}

/// The estimated distances of the entries of a list: the distance of the query
/// to the centroid and that of the vector to it, both squared.
pub open spec fn list_estimates<R: Scalar>(
    query: Seq<R>,
    centroid: Seq<R>,
    list: Seq<usize>,
    norms: Seq<R>,
) -> Seq<Hit<R>> {
    let base = sq_l2_of(query, centroid);
    Seq::new(
        list.len(),
        |i: int| Hit { id: list[i], dist: base.plus_of(norms[i].times_of(norms[i])) },
    )
}

/// The estimated distances of the entries of the lists of the first `n` probed
/// centroids.
pub open spec fn estimates<R: Scalar>(
    query: Seq<R>,
    centroids: Seq<Seq<R>>,
    lists: Seq<Seq<usize>>,
    norms: Seq<Seq<R>>,
    order: Seq<usize>,
    n: nat,
) -> Seq<Hit<R>>
    decreases n,
{
    if n == 0 {
        Seq::empty()
    } else {
        let c = order[n - 1] as int;
        estimates(query, centroids, lists, norms, order, (n - 1) as nat) + list_estimates(
            query,
            centroids[c],
            lists[c],
            norms[c],
        )
    }
}

/// The position of the hit with number `id`, or none.
pub open spec fn position_of<R>(found: Seq<Hit<R>>, id: usize) -> Option<int>
    decreases found.len(),
{
    if found.len() == 0 {
        None
    } else if found.last().id == id {
        Some(found.len() - 1)
    } else {
        position_of(found.drop_last(), id)
    }
}

/// The least estimate for each number, in the order in which the numbers are
/// first met.
pub open spec fn least_estimates<R: Scalar>(found: Seq<Hit<R>>) -> Seq<Hit<R>>
    decreases found.len(),
{
    if found.len() == 0 {
        found
    } else {
        let rest = least_estimates(found.drop_last());
        let hit = found.last();
        match position_of(rest, hit.id) {
            None => rest.push(hit),
            Some(p) => if less(hit.dist, rest[p].dist) {
                rest.update(p, hit)
            } else {
                rest
            },
        }
    }
}

/// What an approximate search returns: for each vector in the lists of the
/// nearest centroids its least estimate, and of them the `k` least ones.
pub open spec fn estimated<R: Scalar>(
    query: Seq<R>,
    k: nat,
    n_probe: nat,
    centroids: Seq<Seq<R>>,
    lists: Seq<Seq<usize>>,
    norms: Seq<Seq<R>>,
) -> Seq<Hit<R>> {
    let order = probed(query, centroids, n_probe);
    payloads(
        top_k(
            keyed_hits(
                least_estimates(estimates(query, centroids, lists, norms, order, order.len())),
            ),
            k,
        ),
    )
}

/// A position holds the hit that is looked for, and there is none exactly if no
/// hit has the number.
pub proof fn lemma_position_of<R>(found: Seq<Hit<R>>, id: usize)
    ensures
        match position_of(found, id) {
            None => forall|i: int| 0 <= i < found.len() ==> (#[trigger] found[i]).id != id,
            Some(p) => 0 <= p < found.len() && found[p].id == id,
        },
    decreases found.len(),
{
    if found.len() > 0 && found.last().id != id {
        lemma_position_of(found.drop_last(), id);
        let t = found.drop_last();
        if position_of(t, id) is None {
            assert forall|i: int| 0 <= i < found.len() implies (#[trigger] found[i]).id != id by {
                if i < t.len() {
                    assert(t[i] == found[i]);
                }
            }
        }
    }
}

/// Each number has one estimate.
pub proof fn lemma_least_estimates<R: Scalar>(found: Seq<Hit<R>>)
    ensures
        least_estimates(found).len() <= found.len(),
        forall|i: int, j: int|
            0 <= i < j < least_estimates(found).len() ==> (#[trigger] least_estimates(found)[i]).id
                != (#[trigger] least_estimates(found)[j]).id,
    decreases found.len(),
{
    if found.len() > 0 {
        let rest = least_estimates(found.drop_last());
        lemma_least_estimates(found.drop_last());
        lemma_position_of(rest, found.last().id);
        let now = least_estimates(found);
        assert forall|i: int, j: int| 0 <= i < j < now.len() implies (#[trigger] now[i]).id != (
        #[trigger] now[j]).id by {
            assert(rest[i].id == now[i].id);
            if j < rest.len() {
                assert(rest[j].id == now[j].id);
            }
        }
    }
}

/// The map tells where each number stands.
spec fn located<R>(places: Map<usize, usize>, best: Seq<Hit<R>>) -> bool {
    &&& forall|id: usize| #[trigger]
        places.dom().contains(id) ==> places[id] < best.len() && best[places[id] as int].id == id
    &&& forall|i: int|
        0 <= i < best.len() ==> places.dom().contains((#[trigger] best[i]).id) && places[best[i].id]
            == i
}

/// Estimates distances from the lists of the nearest centroids alone, and
/// returns the `k` vectors with the least estimates.
pub fn probe_and_scan_approx<R: Scalar>(
    query: &[R],
    k: usize,
    n_probe: usize,
    centroids: &Centroids<R>,
    lists: &PostingLists<R>,
) -> (r: Vec<Hit<R>>)
    requires
        centroids.all().len() <= lists.lists@.len(),
        lists.wf(),
    ensures
        r@ == estimated(
            query@,
            k as nat,
            n_probe as nat,
            centroids.all(),
            rows(lists.lists@),
            rows(lists.residual_norms@),
        ),
        r@.len() <= k,
{
    broadcast use vstd::std_specs::hash::group_hash_axioms;

    let order = centroids.probe(query, n_probe);
    let ghost cents = centroids.all();
    let ghost table = rows(lists.lists@);
    let ghost norms = rows(lists.residual_norms@);
    let mut places: HashMap<usize, usize> = HashMap::new();
    let mut best: Vec<Hit<R>> = Vec::new();
    let total: usize = order.len();
    let mut p: usize = 0;
    while p < total
        invariant
            p <= total,
            total == order@.len(),
            lists.wf(),
            cents == centroids.all(),
            table == rows(lists.lists@),
            norms == rows(lists.residual_norms@),
            cents.len() <= table.len(),
            forall|i: int| 0 <= i < total ==> (#[trigger] order@[i]) < cents.len(),
            best@ == least_estimates(
                estimates(query@, cents, table, norms, order@, p as nat),
            ),
            located(places@, best@),
        decreases total - p,
    {
        let c: usize = order[p];
        assert(order@[p as int] < cents.len());
        let base = sq_l2(query, centroids.vecs[c].as_slice());
        let ghost before = estimates(query@, cents, table, norms, order@, p as nat);
        let ghost more = list_estimates(
            query@,
            cents[c as int],
            table[c as int],
            norms[c as int],
        );
        assert(table[c as int] == lists.lists@[c as int]@);
        assert(norms[c as int] == lists.residual_norms@[c as int]@);
        assert(cents[c as int] == centroids.vecs@[c as int]@);
        let count: usize = lists.lists[c].len();
        let mut i: usize = 0;
        assert(before + more.take(0) =~= before);
        while i < count
            invariant
                i <= count,
                c < lists.lists@.len(),
                lists.wf(),
                count == more.len(),
                count == lists.lists@[c as int]@.len(),
                base == sq_l2_of(query@, cents[c as int]),
                more == list_estimates(
                    query@,
                    cents[c as int],
                    lists.lists@[c as int]@,
                    lists.residual_norms@[c as int]@,
                ),
                best@ == least_estimates(before + more.take(i as int)),
                located(places@, best@),
            decreases count - i,
        {
            broadcast use vstd::std_specs::hash::group_hash_axioms;

            let id: usize = lists.lists[c][i];
            assert(lists.lists@[c as int]@.len() == lists.residual_norms@[c as int]@.len());
            let xn = lists.residual_norms[c][i];
            let est = base.plus(xn.times(xn));
            let ghost was = best@;
            proof {
                let longer = before + more.take(i + 1);
                assert(longer.drop_last() =~= before + more.take(i as int));
                assert(longer.last() == more[i as int]);
                assert(more[i as int] == (Hit { id, dist: est }));
                lemma_position_of(was, id);
            }
            let place: Option<usize> = match places.get(&id) {
                None => None,
                Some(at) => Some(*at),
            };
            match place {
                None => {
                    assert(position_of(was, id) is None) by {
                        if position_of(was, id) is Some {
                            let q = position_of(was, id)->0;
                            assert(places@.dom().contains(was[q].id));
                        }
                    }
                    let at: usize = best.len();
                    let _ = places.insert(id, at);
                    best.push(Hit { id, dist: est });
                },
                Some(at) => {
                    assert(position_of(was, id) == Some(at as int)) by {
                        assert(places@.dom().contains(id));
                        assert(was[at as int].id == id);
                        let q = position_of(was, id)->0;
                        assert(places@[was[q].id] == q);
                    }
                    if is_less(est, best[at].dist) {
                        best.set(at, Hit { id, dist: est });
                    }
                },
            }
            i += 1;
        }
        assert(more.take(count as int) =~= more);
        p += 1;
    }
    proof {
        lemma_top_k(keyed_hits(best@), k as nat);
    }
    nearest_hits(best.as_slice(), k)
}

/// The bytes of `n` vectors with `dims` components of four bytes.
pub fn corpus_bytes(n: usize, dims: usize) -> (r: usize)
    requires
        n * dims * 4 <= usize::MAX,
    ensures
        r == n * dims * 4,
{
    assert(n * dims <= n * dims * 4) by (nonlinear_arith);
    n * dims * 4
}

/// The bytes of posting lists.
pub open spec fn postings_held<R>(lists: PostingLists<R>) -> nat {
    lists.total_entries as nat * (size_of::<usize>() + 4) + lists.lists@.len() * (size_of::<
        Vec<usize>,
    >() + size_of::<Vec<R>>())
}

/// The bytes of centroids.
pub open spec fn centroids_held<R>(c: Centroids<R>) -> nat {
    c.vecs@.len() * c.dims as nat * 4 + c.vecs@.len() * size_of::<Vec<R>>()
}

/// Computes the bytes of posting lists: a number and four bytes per posting, and
/// two vectors per list.
pub fn posting_bytes<R>(lists: &PostingLists<R>) -> (r: usize)
    requires
        postings_held(*lists) <= usize::MAX,
    ensures
        r == postings_held(*lists),
{
    let number: usize = core::mem::size_of::<usize>();
    let of_ids: usize = core::mem::size_of::<Vec<usize>>();
    let of_norms: usize = core::mem::size_of::<Vec<R>>();
    let n: usize = lists.lists.len();
    proof {
        let t = lists.total_entries as int;
        assert(t * (number + 4) == t * number + t * 4) by (nonlinear_arith);
        assert(n * (of_ids + of_norms) == n * of_ids + n * of_norms) by (nonlinear_arith);
        assert(t * number >= 0 && n * of_ids >= 0 && n * of_norms >= 0) by (nonlinear_arith)
            requires
                t >= 0,
        ;
    }
    lists.total_entries * number + lists.total_entries * 4 + n * of_ids + n * of_norms
}

/// Computes the bytes of centroids: four per component, and a vector per
/// centroid.
pub fn centroid_bytes<R>(c: &Centroids<R>) -> (r: usize)
    requires
        centroids_held(*c) <= usize::MAX,
    ensures
        r == centroids_held(*c),
{
    let n: usize = c.vecs.len();
    assert(n * c.dims <= n * c.dims * 4) by (nonlinear_arith);
    n * c.dims * 4 + n * core::mem::size_of::<Vec<R>>()
}

/// An inverted file.
pub trait IvfVariant<R: Scalar> {
    /// The index is well-formed.
    spec fn ready(&self) -> bool;

    /// The centroids.
    spec fn centres(&self) -> Centroids<R>;

    /// The posting lists.
    spec fn postings(&self) -> PostingLists<R>;

    /// The vectors.
    spec fn corpus(&self) -> Seq<Seq<R>>;

    /// The number of postings beyond the first of each vector.
    spec fn spilled(&self) -> nat;

    /// The name of the index.
    spec fn label(&self) -> Seq<char>;

    /// The name of the index.
    fn name(&self) -> (r: &str)
        ensures
            r@ == self.label(),
    ;

    /// The `k` nearest vectors in the lists of the `n_probe` nearest centroids.
    fn search(&self, query: &[R], k: usize, n_probe: usize) -> (r: Vec<Hit<R>>)
        requires
            self.ready(),
        ensures
            r@ == scanned(
                query@,
                k as nat,
                n_probe as nat,
                self.centres().all(),
                rows(self.postings().lists@),
                self.corpus(),
            ),
    ;

    /// The `k` vectors with the least estimated distances in the lists of the
    /// `n_probe` nearest centroids.
    fn search_approx(&self, query: &[R], k: usize, n_probe: usize) -> (r: Vec<Hit<R>>)
        requires
            self.ready(),
        ensures
            r@ == estimated(
                query@,
                k as nat,
                n_probe as nat,
                self.centres().all(),
                rows(self.postings().lists@),
                rows(self.postings().residual_norms@),
            ),
    ;

    /// The bytes of centroids and posting lists.
    fn memory_bytes(&self) -> (r: usize)
        requires
            centroids_held(self.centres()) + postings_held(self.postings()) <= usize::MAX,
        ensures
            r == centroids_held(self.centres()) + postings_held(self.postings()),
    ;

    /// The number of postings beyond the first of each vector.
    fn spill_overhead(&self) -> (r: usize)
        ensures
            r == self.spilled(),
    ;
}

/// The hits of an exact search: no more than `k`, by ascending distance, each
/// vector once, and each in the list of a probed centroid and under its own
/// distance.
pub proof fn lemma_scanned<R: Scalar>(
    query: Seq<R>,
    k: nat,
    n_probe: nat,
    centroids: Seq<Seq<R>>,
    lists: Seq<Seq<usize>>,
    vectors: Seq<Seq<R>>,
)
    ensures
        ({
            let r = scanned(query, k, n_probe, centroids, lists, vectors);
            let order = probed(query, centroids, n_probe);
            &&& r.len() <= k
            &&& forall|i: int, j: int|
                0 <= i <= j < r.len() ==> (#[trigger] r[i]).dist.key_of() <= (
                #[trigger] r[j]).dist.key_of()
            &&& forall|i: int|
                0 <= i < r.len() ==> {
                    &&& gathered(lists, order, order.len()).contains((#[trigger] r[i]).id)
                    &&& r[i].dist == sq_l2_of(query, vectors[r[i].id as int])
                }
            &&& forall|i: int, j: int|
                0 <= i < j < r.len() ==> (#[trigger] r[i]).id != (#[trigger] r[j]).id
        }),
{
    let order = probed(query, centroids, n_probe);
    let all = gathered(lists, order, order.len());
    let ids = distinct(all);
    let found = exact_hits(query, vectors, ids);
    let keyed = keyed_hits(found);
    let r = scanned(query, k, n_probe, centroids, lists, vectors);
    let top = top_k(keyed, k);
    let sorted = stable_sort(keyed);
    lemma_distinct(all);
    lemma_top_k(keyed, k);
    lemma_stable_sort(keyed);
    assert(keyed.no_duplicates()) by {
        assert forall|i: int, j: int|
            0 <= i < keyed.len() && 0 <= j < keyed.len() && i != j implies keyed[i] != keyed[j] by {
            assert(ids[i] != ids[j]);
        }
    }
    keyed.lemma_multiset_has_no_duplicates();
    sorted.lemma_multiset_has_no_duplicates_conv();
    assert forall|i: int| 0 <= i < r.len() implies {
        &&& all.contains((#[trigger] r[i]).id)
        &&& r[i].dist == sq_l2_of(query, vectors[r[i].id as int])
        &&& top[i].0 == r[i].dist.key_of()
    } by {
        assert(keyed.contains(top[i]));
        let j = choose|j: int| 0 <= j < keyed.len() && keyed[j] == top[i];
        assert(found[j] == r[i]);
        assert(ids.contains(ids[j]));
    }
    assert forall|i: int, j: int| 0 <= i <= j < r.len() implies (#[trigger] r[i]).dist.key_of() <= (
    #[trigger] r[j]).dist.key_of() by {
        assert(top[i].0 <= top[j].0);
    }
    assert forall|i: int, j: int| 0 <= i < j < r.len() implies (#[trigger] r[i]).id != (
    #[trigger] r[j]).id by {
        assert(keyed.contains(top[i]) && keyed.contains(top[j]));
        let x = choose|x: int| 0 <= x < keyed.len() && keyed[x] == top[i];
        let y = choose|y: int| 0 <= y < keyed.len() && keyed[y] == top[j];
        assert(sorted[i] != sorted[j]);
        assert(ids[x] != ids[y]);
    }
}

} // verus!
