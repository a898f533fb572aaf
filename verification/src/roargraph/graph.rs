//! Adjacency list with greedy beam search.

use vstd::prelude::*;

use crate::beam::{is_graph, search_from, search_one, Rules};
use crate::beam_laws::{lemma_search_from, lemma_search_from_exact};
use crate::flat::rectangular;
use crate::linalg::{sq_l2, sq_l2_of};
use crate::metric::Distance;
use crate::reach::reachable;
use crate::roargraph::error::RoarError;
use crate::scalar::{whole, Scalar};
use crate::sorting::first_n;
use crate::spaces::{excluding, Excluding};
use crate::table::{copy_row, rows};

verus! {

/// The squared Euclidean distance.
pub fn l2sq<R: Scalar>(a: &[R], b: &[R]) -> (r: R)
    ensures
        r == sq_l2_of(a@, b@),
{
    sq_l2(a, b)
}

/// A vector found by a search.
#[derive(Debug, Clone, Copy, PartialEq, Eq, Structural)]
pub struct SearchResult {
    /// The number of the vector, in the order in which vectors were added.
    pub id: usize,
    /// The distance to the query.
    pub dist: u64,
}

/// The walk of this module: only nodes that improve the results are walked; the
/// greater number is expanded first, and the smaller one stays longest.
pub open spec fn beamed(ef: usize) -> Rules {
    Rules { ef, selective: true, contested: false, high_first: true, high_wins: false }
}

/// Results of a walk.
pub open spec fn as_results(found: Seq<(u64, u32)>) -> Seq<SearchResult> {
    Seq::new(found.len(), |i: int| SearchResult { id: found[i].1 as usize, dist: found[i].0 })
}

/// The sum of component `d` of the first `n` vectors.
pub open spec fn column_sum<R: Scalar>(vectors: Seq<Seq<R>>, d: int, n: nat) -> R
    decreases n,
{
    if n == 0 {
        R::zero_of()
    } else {
        column_sum(vectors, d, (n - 1) as nat).plus_of(vectors[n - 1][d])
    }
}

/// The mean of the vectors, component by component.
pub open spec fn global_mean<R: Scalar>(vectors: Seq<Seq<R>>, dim: nat) -> Seq<R> {
    Seq::new(
        dim,
        |d: int| column_sum(vectors, d, vectors.len()).over_of(whole::<R>(vectors.len() as u64)),
    )
}

/// The number of the vector nearest to `q` among the first `n`; of several at one
/// distance the first.
pub open spec fn nearest_node<T, D: Distance<T>>(
    metric: D,
    q: Seq<T>,
    vectors: Seq<Seq<T>>,
    n: nat,
) -> int
    decreases n,
{
    if n <= 1 {
        0
    } else {
        let best = nearest_node(metric, q, vectors, (n - 1) as nat);
        if metric.spec_key(q, vectors[n - 1]) < metric.spec_key(q, vectors[best]) {
            n - 1
        } else {
            best
        }
    }
}

/// The node from which searches start: the one whose vector is nearest to the mean
/// of all vectors.
pub open spec fn central_node<R: Scalar, D: Distance<R>>(
    metric: D,
    vectors: Seq<Seq<R>>,
    dim: nat,
) -> u32 {
    nearest_node(metric, global_mean(vectors, dim), vectors, vectors.len()) as u32
}

proof fn lemma_nearest_node<T, D: Distance<T>>(
    metric: D,
    q: Seq<T>,
    vectors: Seq<Seq<T>>,
    n: nat,
)
    requires
        1 <= n <= vectors.len(),
    ensures
        ({
            let best = nearest_node(metric, q, vectors, n);
            &&& 0 <= best < n
            &&& forall|i: int|
                0 <= i < n ==> metric.spec_key(q, vectors[best]) <= metric.spec_key(
                    q,
                    #[trigger] vectors[i],
                )
            &&& forall|i: int|
                0 <= i < best ==> metric.spec_key(q, vectors[best]) < metric.spec_key(
                    q,
                    #[trigger] vectors[i],
                )
        }),
    decreases n,
{
    if n > 1 {
        lemma_nearest_node(metric, q, vectors, (n - 1) as nat);
    }
}

/// No vector is nearer to the mean than that of the node from which searches
/// start, and of several as near it has the smallest number.
pub proof fn lemma_central_node<R: Scalar, D: Distance<R>>(
    metric: D,
    vectors: Seq<Seq<R>>,
    dim: nat,
    i: int,
)
    requires
        0 <= i < vectors.len() <= 0x1_0000_0000,
    ensures
        ({
            let mean = global_mean(vectors, dim);
            let best = central_node(metric, vectors, dim);
            &&& best < vectors.len()
            &&& metric.spec_key(mean, vectors[best as int]) <= metric.spec_key(mean, vectors[i])
            &&& i < best ==> metric.spec_key(mean, vectors[best as int]) < metric.spec_key(
                mean,
                vectors[i],
            )
        }),
{
    lemma_nearest_node(metric, global_mean(vectors, dim), vectors, vectors.len());
}

/// Finds the node from which searches start.
fn find_central<R: Scalar, D: Distance<R>>(metric: &D, vectors: &Vec<Vec<R>>, dim: usize) -> (r: u32)
    requires
        0 < vectors@.len() <= 0x1_0000_0000,
        rectangular(rows(vectors@), dim as nat),
    ensures
        r == central_node(*metric, rows(vectors@), dim as nat),
        r < vectors@.len(),
{
    let n: usize = vectors.len();
    let ghost all = rows(vectors@);
    let ghost want = global_mean(all, dim as nat);
    let mut mean: Vec<R> = Vec::new();
    let mut d: usize = 0;
    while d < dim
        invariant
            d <= dim,
            n == vectors@.len(),
            all == rows(vectors@),
            rectangular(all, dim as nat),
            want == global_mean(all, dim as nat),
            mean@ =~= want.take(d as int),
        decreases dim - d,
    {
        let mut total: R = R::zero();
        let mut i: usize = 0;
        while i < n
            invariant
                i <= n,
                d < dim,
                n == vectors@.len(),
                all == rows(vectors@),
                rectangular(all, dim as nat),
                total == column_sum(all, d as int, i as nat),
            decreases n - i,
        {
            assert(all[i as int].len() == dim);
            assert(all[i as int] == vectors@[i as int]@);
            total = total.plus(vectors[i][d]);
            i += 1;
        }
        mean.push(total.over(R::ratio(n as u64, 1)));
        d += 1;
    }
    assert(want.take(dim as int) =~= want);
    let mut best: usize = 0;
    let mut least: u64 = metric.key(mean.as_slice(), vectors[0].as_slice());
    let mut i: usize = 1;
    while i < n
        invariant
            1 <= i <= n,
            n == vectors@.len(),
            all == rows(vectors@),
            mean@ == want,
            best < i,
            best == nearest_node(*metric, want, all, i as nat),
            least == metric.spec_key(want, all[best as int]),
        decreases n - i,
    {
        let k: u64 = metric.key(mean.as_slice(), vectors[i].as_slice());
        if k < least {
            best = i;
            least = k;
        }
        i += 1;
    }
    best as u32
}

/// What a search returns: a walk from `entry`, and of its results the first `k`.
pub open spec fn beam_results<T, D: Distance<T>>(
    metric: D,
    query: Seq<T>,
    vectors: Seq<Seq<T>>,
    adj: Seq<Seq<u32>>,
    entry: u32,
    k: nat,
    ef: usize,
) -> Seq<SearchResult> {
    first_n(
        as_results(
            search_from(excluding(metric, query, vectors, Seq::empty()), beamed(ef), adj, entry),
        ),
        k,
    )
}

/// The results of a search: by ascending distance, each vector once, each
/// reachable from the entry node and under its own distance. Where the beam is as wide
/// as the graph, no reachable vector that is left out is nearer.
pub proof fn lemma_beam_results<T, D: Distance<T>>(
    metric: D,
    query: Seq<T>,
    vectors: Seq<Seq<T>>,
    adj: Seq<Seq<u32>>,
    entry: u32,
    k: nat,
    ef: usize,
)
    requires
        is_graph(adj, vectors.len()),
        entry < vectors.len() <= 0x1_0000_0000,
    ensures
        ({
            let r = beam_results(metric, query, vectors, adj, entry, k, ef);
            &&& r.len() <= k
            &&& forall|i: int, j: int|
                0 <= i <= j < r.len() ==> (#[trigger] r[i]).dist <= (#[trigger] r[j]).dist
            &&& forall|i: int, j: int|
                0 <= i < j < r.len() ==> (#[trigger] r[i]).id != (#[trigger] r[j]).id
            &&& forall|i: int|
                0 <= i < r.len() ==> {
                    &&& (#[trigger] r[i]).id < vectors.len()
                    &&& r[i].dist == metric.spec_key(query, vectors[r[i].id as int])
                    &&& reachable(adj, entry, r[i].id as u32)
                }
            &&& k > 0 && ef > 0 ==> r.len() > 0 && r[0].dist <= metric.spec_key(query, vectors[entry as int])
            &&& ef >= vectors.len() ==> forall|i: int, id: u32|
                0 <= i < r.len() && #[trigger] reachable(adj, entry, id) && id < vectors.len()
                    && !r.contains(
                    SearchResult {
                        id: id as usize,
                        dist: metric.spec_key(query, vectors[id as int]),
                    },
                ) ==> (#[trigger] r[i]).dist <= metric.spec_key(query, vectors[id as int])
        }),
{
    let nodes = excluding(metric, query, vectors, Seq::empty());
    let found = search_from(nodes, beamed(ef), adj, entry);
    let r = beam_results(metric, query, vectors, adj, entry, k, ef);
    lemma_search_from(nodes, beamed(ef), adj, entry);
    assert forall|i: int, j: int| 0 <= i <= j < r.len() implies (#[trigger] r[i]).dist <= (
    #[trigger] r[j]).dist by {
        assert(found[i].0 <= found[j].0);
    }
    assert forall|i: int, j: int| 0 <= i < j < r.len() implies (#[trigger] r[i]).id != (
    #[trigger] r[j]).id by {
        assert(found[i].1 != found[j].1);
    }
    assert forall|i: int| 0 <= i < r.len() implies {
        &&& (#[trigger] r[i]).id < vectors.len()
        &&& r[i].dist == metric.spec_key(query, vectors[r[i].id as int])
        &&& reachable(adj, entry, r[i].id as u32)
    } by {
        assert(found[i].0 == nodes.rank_of(found[i].1));
    }
    assert(nodes.admits(entry));
    assert(nodes.rank_of(entry) == metric.spec_key(query, vectors[entry as int]));
    if ef >= vectors.len() {
        assert forall|i: int, id: u32|
            0 <= i < r.len() && #[trigger] reachable(adj, entry, id) && id < vectors.len()
                && !r.contains(
                SearchResult { id: id as usize, dist: metric.spec_key(query, vectors[id as int]) },
            ) implies (#[trigger] r[i]).dist <= metric.spec_key(query, vectors[id as int]) by {
            lemma_search_from_exact(nodes, beamed(ef), adj, entry, id);
            assert(nodes.admits(id));
            let x = choose|x: int| 0 <= x < found.len() && found[x] == (nodes.rank_of(id), id);
            if x < r.len() {
                assert(r[x] == (SearchResult {
                    id: id as usize,
                    dist: metric.spec_key(query, vectors[id as int]),
                }));
            }
            assert(found[i].0 <= found[x].0);
        }
    }
}

/// Index over a graph that is built from training queries.
pub struct RoarGraph<T, D> {
    dim: usize,
    vectors: Vec<Vec<T>>,
    /// The neighbours of each node.
    adj: Vec<Vec<u32>>,
    built: bool,
    /// The node from which searches start.
    entry: u32,
    metric: D,
}

/// The first of the vectors whose dimension is not `dim`, from `from` on.
pub open spec fn first_misfit<T>(vectors: Seq<Seq<T>>, dim: nat, from: int) -> int
    decreases vectors.len() - from,
{
    if from >= vectors.len() || vectors[from].len() != dim {
        from
    } else {
        first_misfit(vectors, dim, from + 1)
    }
}

impl<T: Scalar, D: Distance<T>> RoarGraph<T, D> {
    /// The dimension of the vectors.
    pub closed spec fn width(&self) -> usize {
        self.dim
    }

    /// The vectors, in the order in which they were added.
    pub closed spec fn points(&self) -> Seq<Seq<T>> {
        rows(self.vectors@)
    }

    /// The neighbours of each node.
    pub closed spec fn edges(&self) -> Seq<Seq<u32>> {
        rows(self.adj@)
    }

    /// Whether the graph was built.
    pub closed spec fn is_built(&self) -> bool {
        self.built
    }

    /// The node from which searches start.
    pub closed spec fn origin(&self) -> u32 {
        self.entry
    }

    /// The distance.
    pub closed spec fn distance(&self) -> D {
        self.metric
    }

    /// A graph that was built covers every vector, its neighbours exist, and
    /// searches start at the node nearest to the mean.
    pub open spec fn wf(&self) -> bool {
        &&& self.points().len() <= 0x1_0000_0000
        &&& rectangular(self.points(), self.width() as nat)
        &&& self.is_built() ==> is_graph(self.edges(), self.points().len())
        &&& self.is_built() && self.points().len() > 0 ==> self.origin() == central_node(
            self.distance(),
            self.points(),
            self.width() as nat,
        )
    }

    /// An empty index for vectors of dimension `dim`.
    pub fn new(dim: usize, metric: D) -> (r: Self)
        ensures
            r.wf(),
            r.width() == dim,
            r.points() == Seq::<Seq<T>>::empty(),
            r.edges() == Seq::<Seq<u32>>::empty(),
            !r.is_built(),
            r.distance() == metric,
    {
        let r = RoarGraph { dim, vectors: Vec::new(), adj: Vec::new(), built: false, entry: 0, metric };
        assert(r.points() =~= Seq::empty());
        assert(r.edges() =~= Seq::empty());
        r
    }

    /// Adds vectors up to the first one of another dimension, which is an error.
    /// Vectors are added before the graph is built.
    pub fn add(&mut self, vectors: &[Vec<T>]) -> (r: Result<(), RoarError>)
        requires
            old(self).wf(),
            !old(self).is_built(),
            old(self).points().len() + vectors@.len() <= 0x1_0000_0000,
        ensures
            ({
                let given = rows(vectors@);
                let stop = first_misfit(given, old(self).width() as nat, 0);
                &&& 0 <= stop <= given.len()
                &&& final(self).points() == old(self).points() + given.take(stop)
                &&& r == if stop == given.len() {
                    Ok(())
                } else {
                    Err(
                        RoarError::DimensionMismatch {
                            expected: old(self).width(),
                            got: given[stop].len() as usize,
                        },
                    )
                }
            }),
            final(self).wf(),
            final(self).width() == old(self).width(),
            final(self).edges() == old(self).edges(),
            final(self).is_built() == old(self).is_built(),
            final(self).distance() == old(self).distance(),
    {
        let n: usize = vectors.len();
        let ghost given = rows(vectors@);
        let ghost dim = self.dim as nat;
        let mut i: usize = 0;
        assert(self.points() =~= old(self).points() + given.take(0));
        while i < n
            invariant
                i <= n,
                n == vectors@.len(),
                given == rows(vectors@),
                dim == self.dim,
                dim == old(self).dim,
                first_misfit(given, dim, 0) == first_misfit(given, dim, i as int),
                self.points() == old(self).points() + given.take(i as int),
                self.points().len() <= 0x1_0000_0000,
                old(self).points().len() + n <= 0x1_0000_0000,
                self.edges() == old(self).edges(),
                self.is_built() == old(self).is_built(),
                self.distance() == old(self).distance(),
                !old(self).is_built(),
                rectangular(self.points(), dim),
            decreases n - i,
        {
            let v: &Vec<T> = &vectors[i];
            assert(given[i as int] == v@);
            if v.len() != self.dim {
                return Err(RoarError::DimensionMismatch { expected: self.dim, got: v.len() });
            }
            let copy = copy_row(v.as_slice());
            let ghost before = self.points();
            self.vectors.push(copy);
            proof {
                assert(self.points() =~= before.push(copy@));
                assert(self.points() =~= old(self).points() + given.take(i + 1));
            }
            i += 1;
        }
        Ok(())
    }

    /// The vectors and the distance.
    pub(crate) fn stored(&self) -> (r: (&Vec<Vec<T>>, &D))
        ensures
            rows(r.0@) == self.points(),
            *r.1 == self.distance(),
    {
        (&self.vectors, &self.metric)
    }

    /// Takes the lists of a graph that was built.
    pub(crate) fn set_edges(&mut self, adj: Vec<Vec<u32>>)
        requires
            old(self).wf(),
            old(self).points().len() > 0,
            is_graph(rows(adj@), old(self).points().len()),
        ensures
            final(self).wf(),
            final(self).is_built(),
            final(self).edges() == rows(adj@),
            final(self).points() == old(self).points(),
            final(self).width() == old(self).width(),
            final(self).distance() == old(self).distance(),
    {
        self.entry = find_central(&self.metric, &self.vectors, self.dim);
        self.adj = adj;
        self.built = true;
    }

    /// The number of vectors.
    pub fn len(&self) -> (r: usize)
        ensures
            r == self.points().len(),
    {
        self.vectors.len()
    }

    /// Whether there are no vectors.
    pub fn is_empty(&self) -> (r: bool)
        ensures
            r == (self.points().len() == 0),
    {
        self.vectors.len() == 0
    }

    /// The neighbours of each node.
    pub fn adjacency(&self) -> (r: &Vec<Vec<u32>>)
        ensures
            rows(r@) == self.edges(),
    {
        &self.adj
    }

    /// Searches with a beam of width `ef`, for up to `k` vectors by ascending
    /// distance. The beam starts at the node whose vector is nearest to the mean of
    /// all vectors.
    pub fn search(&self, query: &[T], k: usize, ef: usize) -> (r: Result<Vec<SearchResult>, RoarError>)
        requires
            self.wf(),
        ensures
            !self.is_built() ==> r == Err::<Vec<SearchResult>, RoarError>(RoarError::NotBuilt),
            self.is_built() && self.points().len() == 0 ==> r == Err::<Vec<SearchResult>, RoarError>(
                RoarError::EmptyIndex,
            ),
            self.is_built() && self.points().len() > 0 && query@.len() != self.width() ==> r == Err::<
                Vec<SearchResult>,
                RoarError,
            >(
                RoarError::DimensionMismatch {
                    expected: self.width(),
                    got: query@.len() as usize,
                },
            ),
            self.is_built() && self.points().len() > 0 && query@.len() == self.width() ==> r is Ok
                && r->Ok_0@ == beam_results(
                self.distance(),
                query@,
                self.points(),
                self.edges(),
                central_node(self.distance(), self.points(), self.width() as nat),
                k as nat,
                ef,
            ),
    {
        if !self.built {
            return Err(RoarError::NotBuilt);
        }
        if self.vectors.len() == 0 {
            return Err(RoarError::EmptyIndex);
        }
        if query.len() != self.dim {
            return Err(
                RoarError::DimensionMismatch { expected: self.dim, got: query.len() },
            );
        }
        let none: [u32; 0] = [];
        assert(none@ =~= Seq::empty());
        let space = Excluding {
            metric: &self.metric,
            q: query,
            vectors: &self.vectors,
            excluded: &none,
        };
        let rules = Rules {
            ef,
            selective: true,
            contested: false,
            high_first: true,
            high_wins: false,
        };
        proof {
            lemma_central_node(self.metric, self.points(), self.dim as nat, 0);
        }
        let found = search_one(&space, rules, &self.adj, self.entry);
        let n: usize = found.len();
        let ghost all = as_results(found@);
        let mut r: Vec<SearchResult> = Vec::new();
        let mut i: usize = 0;
        while i < n
            invariant
                i <= n,
                n == found@.len(),
                all == as_results(found@),
                r@ =~= all.take(i as int),
            decreases n - i,
        {
            r.push(SearchResult { id: found[i].1 as usize, dist: found[i].0 });
            i += 1;
        }
        assert(all.take(n as int) =~= all);
        r.truncate(k);
        Ok(r)
    }
}

} // verus!
