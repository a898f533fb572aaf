//! Graph of the nearest base vectors, without training queries.

use vstd::prelude::*;

use crate::beam::{is_graph, listed_below};
use crate::metric::Distance;
use crate::roargraph::construct::seen_from;
use crate::roargraph::error::RoarError;
use crate::roargraph::graph::{
    beam_results, central_node, first_misfit, RoarGraph, SearchResult,
};
use crate::roargraph::knn::{lemma_others, others};
use crate::scalar::Scalar;
use crate::spaces::{lemma_nearest, nearest, select_nearest, Excluding};
use crate::table::rows;

verus! {

/// The numbers below `n`.
pub open spec fn below(n: nat) -> Seq<u32> {
    Seq::new(n, |i: int| i as u32)
}

/// Each node with its nearest other nodes.
pub open spec fn baseline_graph<T, D: Distance<T>>(
    metric: D,
    vectors: Seq<Seq<T>>,
    max_degree: nat,
) -> Seq<Seq<u32>> {
    Seq::new(
        vectors.len(),
        |i: int|
            nearest(
                seen_from(metric, vectors, i),
                others(below(vectors.len()), i as u32),
                max_degree,
            ),
    )
}

proof fn lemma_others_below(n: nat, i: u32)
    requires
        i < n <= 0x1_0000_0000,
    ensures
        others(below(n), i).len() == n - 1,
        listed_below(others(below(n), i), n),
    decreases n,
{
    let t = below(n).drop_last();
    assert(t =~= below((n - 1) as nat));
    assert(below(n).last() == (n - 1) as u32);
    if i < n - 1 {
        lemma_others_below((n - 1) as nat, i);
    } else {
        lemma_all_others((n - 1) as nat, i);
    }
    lemma_others(below(n), i);
    let list = others(below(n), i);
    assert forall|x: int| 0 <= x < list.len() implies (#[trigger] list[x]) < n by {
        assert(below(n).contains(list[x]));
    }
}

proof fn lemma_all_others(n: nat, i: u32)
    requires
        n <= i,
    ensures
        others(below(n), i) == below(n),
    decreases n,
{
    if n > 0 {
        assert(below(n).drop_last() =~= below((n - 1) as nat));
        lemma_all_others((n - 1) as nat, i);
        assert(others(below(n), i) =~= below(n));
    }
}

/// In the baseline graph neighbours exist, and every node has as many as asked
/// for or all others.
pub proof fn lemma_baseline_graph<T, D: Distance<T>>(
    metric: D,
    vectors: Seq<Seq<T>>,
    max_degree: nat,
)
    requires
        vectors.len() <= 0x1_0000_0000,
    ensures
        is_graph(baseline_graph(metric, vectors, max_degree), vectors.len()),
        forall|i: int|
            0 <= i < vectors.len() ==> (#[trigger] baseline_graph(
                metric,
                vectors,
                max_degree,
            )[i]).len() == if max_degree <= vectors.len() - 1 {
                max_degree as int
            } else {
                vectors.len() - 1
            },
{
    let n = vectors.len();
    let adj = baseline_graph(metric, vectors, max_degree);
    assert forall|i: int| 0 <= i < n implies listed_below(#[trigger] adj[i], n) && adj[i].len()
        == if max_degree <= n - 1 {
        max_degree as int
    } else {
        n - 1
    } by {
        let list = others(below(n), i as u32);
        lemma_others_below(n, i as u32);
        lemma_nearest(seen_from(metric, vectors, i), list, max_degree);
        assert forall|x: int| 0 <= x < adj[i].len() implies (#[trigger] adj[i][x]) < n by {
            assert(list.contains(adj[i][x]));
            let y = choose|y: int| 0 <= y < list.len() && list[y] == adj[i][x];
            assert(list[y] < n);
        }
    }
}

/// Index over the graph of nearest base vectors.
pub struct BaselineGraph<T, D> {
    inner: RoarGraph<T, D>,
    max_degree: usize,
}

impl<T: Scalar, D: Distance<T>> BaselineGraph<T, D> {
    /// The graph index.
    pub closed spec fn graph(&self) -> RoarGraph<T, D> {
        self.inner
    }

    /// The number of neighbours per node.
    pub closed spec fn degree(&self) -> usize {
        self.max_degree
    }

    /// An empty index with `max_degree` neighbours per node.
    pub fn new(dim: usize, max_degree: usize, metric: D) -> (r: Self)
        ensures
            r.graph().wf(),
            r.graph().width() == dim,
            r.graph().points() == Seq::<Seq<T>>::empty(),
            !r.graph().is_built(),
            r.graph().distance() == metric,
            r.degree() == max_degree,
    {
        BaselineGraph { inner: RoarGraph::new(dim, metric), max_degree }
    }

    /// The number of vectors.
    pub fn len(&self) -> (r: usize)
        ensures
            r == self.graph().points().len(),
    {
        self.inner.len()
    }

    /// Whether there are no vectors.
    pub fn is_empty(&self) -> (r: bool)
        ensures
            r == (self.graph().points().len() == 0),
    {
        self.inner.is_empty()
    }

    /// The neighbours of each node.
    pub fn adjacency(&self) -> (r: &Vec<Vec<u32>>)
        ensures
            rows(r@) == self.graph().edges(),
    {
        self.inner.adjacency()
    }

    /// Adds vectors up to the first one of another dimension, which is an error.
    pub fn add(&mut self, vectors: &[Vec<T>]) -> (r: Result<(), RoarError>)
        requires
            old(self).graph().wf(),
            !old(self).graph().is_built(),
            old(self).graph().points().len() + vectors@.len() <= 0x1_0000_0000,
        ensures
            ({
                let given = rows(vectors@);
                let stop = first_misfit(given, old(self).graph().width() as nat, 0);
                &&& 0 <= stop <= given.len()
                &&& final(self).graph().points() == old(self).graph().points() + given.take(stop)
                &&& r == if stop == given.len() {
                    Ok(())
                } else {
                    Err(
                        RoarError::DimensionMismatch {
                            expected: old(self).graph().width(),
                            got: given[stop].len() as usize,
                        },
                    )
                }
            }),
            final(self).graph().wf(),
            final(self).graph().width() == old(self).graph().width(),
            !final(self).graph().is_built(),
            final(self).graph().distance() == old(self).graph().distance(),
            final(self).degree() == old(self).degree(),
    {
        self.inner.add(vectors)
    }

    /// Builds the graph. Training queries play no part in it.
    pub fn build(&mut self, _training_queries: &[Vec<T>]) -> (r: Result<(), RoarError>)
        requires
            old(self).graph().wf(),
        ensures
            r == if old(self).graph().points().len() == 0 {
                Err::<(), RoarError>(RoarError::EmptyIndex)
            } else {
                Ok(())
            },
            r is Err ==> *final(self) == *old(self),
            final(self).graph().points() == old(self).graph().points(),
            final(self).graph().width() == old(self).graph().width(),
            final(self).graph().distance() == old(self).graph().distance(),
            final(self).degree() == old(self).degree(),
            r is Ok ==> {
                &&& final(self).graph().is_built()
                &&& final(self).graph().wf()
                &&& final(self).graph().edges() == baseline_graph(
                    old(self).graph().distance(),
                    old(self).graph().points(),
                    old(self).degree() as nat,
                )
            },
    {
        if self.inner.len() == 0 {
            return Err(RoarError::EmptyIndex);
        }
        let ghost points = self.inner.points();
        let ghost dist = self.inner.distance();
        let ghost all = baseline_graph(dist, points, self.max_degree as nat);
        let n: usize = self.inner.len();
        let none: [u32; 0] = [];
        assert(none@ =~= Seq::empty());
        let mut adj: Vec<Vec<u32>> = Vec::new();
        let mut i: usize = 0;
        while i < n
            invariant
                i <= n,
                n == points.len(),
                n <= 0x1_0000_0000,
                self.inner.wf(),
                points == self.inner.points(),
                dist == self.inner.distance(),
                none@ == Seq::<u32>::empty(),
                all == baseline_graph(dist, points, self.max_degree as nat),
                rows(adj@) =~= all.take(i as int),
            decreases n - i,
        {
            let (vectors, metric) = self.inner.stored();
            let ghost list = others(below(n as nat), i as u32);
            let mut rest: Vec<u32> = Vec::new();
            let mut j: usize = 0;
            assert(below(n as nat).take(0) =~= Seq::empty());
            while j < n
                invariant
                    j <= n,
                    n <= 0x1_0000_0000,
                    i < n,
                    rest@ == others(below(n as nat).take(j as int), i as u32),
                decreases n - j,
            {
                proof {
                    let all = below(n as nat);
                    assert(all.take(j + 1).drop_last() =~= all.take(j as int));
                }
                if j != i {
                    rest.push(j as u32);
                }
                j += 1;
            }
            proof {
                assert(below(n as nat).take(n as int) =~= below(n as nat));
                lemma_others_below(n as nat, i as u32);
                assert(points[i as int] == vectors@[i as int]@);
            }
            let space = Excluding { metric, q: vectors[i].as_slice(), vectors, excluded: &none };
            let chosen = select_nearest(&space, rest.as_slice(), self.max_degree);
            let ghost done = rows(adj@);
            assert(chosen@ == all[i as int]);
            adj.push(chosen);
            assert(rows(adj@) =~= done.push(chosen@));
            i += 1;
        }
        assert(all.take(n as int) =~= all);
        proof {
            lemma_baseline_graph(dist, points, self.max_degree as nat);
        }
        self.inner.set_edges(adj);
        Ok(())
    }

    /// Searches with a beam of width `ef`, from the node whose vector is nearest to
    /// the mean of all vectors.
    pub fn search(&self, query: &[T], k: usize, ef: usize) -> (r: Result<Vec<SearchResult>, RoarError>)
        requires
            self.graph().wf(),
        ensures
            !self.graph().is_built() ==> r == Err::<Vec<SearchResult>, RoarError>(
                RoarError::NotBuilt,
            ),
            self.graph().is_built() && self.graph().points().len() == 0 ==> r == Err::<
                Vec<SearchResult>,
                RoarError,
            >(RoarError::EmptyIndex),
            self.graph().is_built() && self.graph().points().len() > 0 && query@.len()
                != self.graph().width() ==> r == Err::<Vec<SearchResult>, RoarError>(
                RoarError::DimensionMismatch {
                    expected: self.graph().width(),
                    got: query@.len() as usize,
                },
            ),
            self.graph().is_built() && self.graph().points().len() > 0 && query@.len()
                == self.graph().width() ==> r is Ok && r->Ok_0@ == beam_results(
                self.graph().distance(),
                query@,
                self.graph().points(),
                self.graph().edges(),
                central_node(
                    self.graph().distance(),
                    self.graph().points(),
                    self.graph().width() as nat,
                ),
                k as nat,
                ef,
            ),
    {
        self.inner.search(query, k, ef)
    }
}

} // verus!
