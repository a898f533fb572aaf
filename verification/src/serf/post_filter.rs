//! Graph search whose results are filtered afterwards.

use vstd::prelude::*;

use crate::beam::{is_graph, Nodes, Space};
use crate::scalar::Scalar;
use crate::serf::data::{in_range, sq_l2, sq_l2_of, Dataset, Point, Query};
use crate::serf::graph::Graph;
use crate::serf::greedy::{hunt, hunted, lemma_hunted};
use crate::serf::{Hit, RangeAnn};
use crate::sorting::first_n;
use crate::table::rows;

verus! {

/// The points by their distance from a query. If `guided`, only those that the
/// query asks for are walked through.
pub open spec fn toward<R: Scalar>(points: Seq<Point<R>>, query: Query<R>, guided: bool) -> Nodes {
    Nodes {
        count: points.len(),
        ranks: |j: u32| sq_l2_of(points[j as int].vec@, query.vec@).key_of(),
        allowed: |j: u32| guided ==> query.admits(points[j as int]),
    }
}

/// Computes what `toward` states.
pub struct Toward<'a, R> {
    pub points: &'a Vec<Point<R>>,
    pub query: &'a Query<R>,
    pub guided: bool,
}

impl<'a, R: Scalar> Space for Toward<'a, R> {
    open spec fn nodes(&self) -> Nodes {
        toward(self.points@, *self.query, self.guided)
    }

    fn rank(&self, id: u32) -> (r: u64) {
        sq_l2(self.points[id as usize].vec.as_slice(), self.query.vec.as_slice()).key()
    }

    fn allow(&self, id: u32) -> (b: bool) {
        !self.guided || in_range(self.points[id as usize].attr, self.query.lo, self.query.hi)
    }
}

/// What a graph search from `entry` finds: keys of distances, and points.
pub open spec fn nsw_found<R: Scalar>(
    points: Seq<Point<R>>,
    adj: Seq<Seq<u32>>,
    entry: u32,
    query: Query<R>,
    ef: usize,
    guided: bool,
) -> Seq<(u64, u32)> {
    hunted(toward(points, query, guided), ef, adj, entry)
}

/// Searches a graph from `entry`. If `guided`, only points that the query asks
/// for are walked through.
pub fn nsw_search<R: Scalar>(
    points: &Vec<Point<R>>,
    graph: &Graph,
    entry: u32,
    query: &Query<R>,
    ef: usize,
    guided: bool,
) -> (r: Vec<(u64, u32)>)
    requires
        is_graph(rows(graph.neighbors@), points@.len()),
        entry < points@.len(),
    ensures
        r@ == nsw_found(points@, rows(graph.neighbors@), entry, *query, ef, guided),
        forall|i: int| 0 <= i < r@.len() ==> (#[trigger] r@[i]).1 < points@.len(),
{
    let space = Toward { points, query, guided };
    proof {
        lemma_hunted(space.nodes(), ef, rows(graph.neighbors@), entry);
    }
    hunt(&space, ef, &graph.neighbors, entry)
}

/// Those of the points found that the query asks for, as hits.
pub open spec fn wanted<R: Scalar>(
    points: Seq<Point<R>>,
    query: Query<R>,
    found: Seq<(u64, u32)>,
) -> Seq<Hit<R>>
    decreases found.len(),
{
    if found.len() == 0 {
        Seq::empty()
    } else {
        let before = wanted(points, query, found.drop_last());
        let id = found.last().1;
        let p = points[id as int];
        if query.admits(p) {
            before.push(Hit { id, dist: sq_l2_of(p.vec@, query.vec@) })
        } else {
            before
        }
    }
}

/// Keeps those of the points found that the query asks for.
pub fn keep_wanted<R: Scalar>(points: &Vec<Point<R>>, query: &Query<R>, found: &[(u64, u32)]) -> (r:
    Vec<Hit<R>>)
    requires
        forall|i: int| 0 <= i < found@.len() ==> (#[trigger] found@[i]).1 < points@.len(),
    ensures
        r@ == wanted(points@, *query, found@),
{
    let n: usize = found.len();
    let mut r: Vec<Hit<R>> = Vec::new();
    let mut i: usize = 0;
    assert(found@.take(0) =~= Seq::empty());
    while i < n
        invariant
            i <= n,
            n == found@.len(),
            forall|i: int| 0 <= i < found@.len() ==> (#[trigger] found@[i]).1 < points@.len(),
            r@ == wanted(points@, *query, found@.take(i as int)),
        decreases n - i,
    {
        proof {
            assert(found@.take(i + 1).drop_last() =~= found@.take(i as int));
            assert(found@.take(i + 1).last() == found@[i as int]);
        }
        let id: u32 = found[i].1;
        let p = &points[id as usize];
        if in_range(p.attr, query.lo, query.hi) {
            r.push(Hit { id, dist: sq_l2(p.vec.as_slice(), query.vec.as_slice()) });
        }
        i += 1;
    }
    assert(found@.take(n as int) =~= found@);
    r
}

/// Keeps the first `k` hits.
pub fn keep_first<R: Scalar>(found: Vec<Hit<R>>, k: usize) -> (r: Vec<Hit<R>>)
    ensures
        r@ == first_n(found@, k as nat),
{
    let mut r = found;
    if k < r.len() {
        r.truncate(k);
    }
    assert(r@ =~= first_n(found@, k as nat));
    r
}

/// The hits of a graph search are different points that the query asks for, with
/// their distances, which do not decrease.
pub proof fn lemma_wanted<R: Scalar>(
    points: Seq<Point<R>>,
    adj: Seq<Seq<u32>>,
    entry: u32,
    query: Query<R>,
    ef: usize,
    guided: bool,
)
    requires
        is_graph(adj, points.len()),
        entry < points.len(),
    ensures
        ({
            let hits = wanted(
                points,
                query,
                nsw_found(points, adj, entry, query, ef, guided),
            );
            &&& forall|i: int|
                0 <= i < hits.len() ==> {
                    let h = #[trigger] hits[i];
                    &&& h.id < points.len()
                    &&& query.admits(points[h.id as int])
                    &&& h.dist == sq_l2_of(points[h.id as int].vec@, query.vec@)
                }
            &&& forall|i: int, j: int|
                0 <= i < j < hits.len() ==> (#[trigger] hits[i]).id != (#[trigger] hits[j]).id
                    && hits[i].dist.key_of() <= hits[j].dist.key_of()
        }),
{
    let nodes = toward(points, query, guided);
    lemma_hunted(nodes, ef, adj, entry);
    let found = nsw_found(points, adj, entry, query, ef, guided);
    lemma_wanted_upto(points, query, found);
}

proof fn lemma_wanted_upto<R: Scalar>(
    points: Seq<Point<R>>,
    query: Query<R>,
    found: Seq<(u64, u32)>,
)
    requires
        forall|i: int|
            0 <= i < found.len() ==> (#[trigger] found[i]).1 < points.len() && found[i].0
                == sq_l2_of(points[found[i].1 as int].vec@, query.vec@).key_of(),
        forall|i: int, j: int|
            0 <= i < j < found.len() ==> (#[trigger] found[i]).1 != (#[trigger] found[j]).1,
        forall|i: int, j: int|
            0 <= i <= j < found.len() ==> (#[trigger] found[i]).0 <= (#[trigger] found[j]).0,
    ensures
        ({
            let hits = wanted(points, query, found);
            &&& hits.len() <= found.len()
            &&& forall|i: int|
                0 <= i < hits.len() ==> {
                    let h = #[trigger] hits[i];
                    &&& h.id < points.len()
                    &&& query.admits(points[h.id as int])
                    &&& h.dist == sq_l2_of(points[h.id as int].vec@, query.vec@)
                    &&& exists|x: int| 0 <= x < found.len() && (#[trigger] found[x]).1 == h.id
                }
            &&& forall|i: int, j: int|
                0 <= i < j < hits.len() ==> (#[trigger] hits[i]).id != (#[trigger] hits[j]).id
                    && hits[i].dist.key_of() <= hits[j].dist.key_of()
        }),
    decreases found.len(),
{
    if found.len() > 0 {
        let t = found.drop_last();
        assert forall|i: int| 0 <= i < t.len() implies (#[trigger] t[i]) == found[i] by {}
        lemma_wanted_upto(points, query, t);
        let a = wanted(points, query, t);
        let b = wanted(points, query, found);
        assert forall|i: int| 0 <= i < b.len() implies {
            let h = #[trigger] b[i];
            &&& h.id < points.len()
            &&& query.admits(points[h.id as int])
            &&& h.dist == sq_l2_of(points[h.id as int].vec@, query.vec@)
            &&& exists|x: int| 0 <= x < found.len() && (#[trigger] found[x]).1 == h.id
        } by {
            if i < a.len() {
                assert(b[i] == a[i]);
                let x = choose|x: int| 0 <= x < t.len() && (#[trigger] t[x]).1 == a[i].id;
                assert(found[x].1 == b[i].id);
            } else {
                assert(found[found.len() - 1].1 == b[i].id);
            }
        }
        assert forall|i: int, j: int| 0 <= i < j < b.len() implies (#[trigger] b[i]).id != (
        #[trigger] b[j]).id && b[i].dist.key_of() <= b[j].dist.key_of() by {
            assert(b[i] == a[i]);
            if j < a.len() {
                assert(b[j] == a[j]);
            } else {
                let x = choose|x: int| 0 <= x < t.len() && (#[trigger] t[x]).1 == a[i].id;
                let y = found.len() - 1;
                assert(found[x].1 != found[y].1 && found[x].0 <= found[y].0);
            }
        }
    }
}

/// Searches the whole graph, and keeps the points in the range.
pub struct PostFilterNsw<'a, R> {
    pub ds: &'a Dataset<R>,
    pub graph: Graph,
    /// The number of results of a graph search.
    pub ef: usize,
    /// The point from which searches start.
    pub entry: u32,
}

impl<'a, R: Scalar> PostFilterNsw<'a, R> {
    /// Searches `graph` from the first point.
    pub fn new(ds: &'a Dataset<R>, graph: Graph, ef: usize) -> (r: Self)
        ensures
            r.ds == ds,
            r.graph == graph,
            r.ef == ef,
            r.entry == 0,
    {
        PostFilterNsw { ds, graph, ef, entry: 0 }
    }
}

impl<'a, R: Scalar> RangeAnn<R> for PostFilterNsw<'a, R> {
    open spec fn ready(&self, query: Query<R>) -> bool {
        &&& is_graph(rows(self.graph.neighbors@), self.ds.points@.len())
        &&& self.entry < self.ds.points@.len()
    }

    open spec fn answer(&self, query: Query<R>, k: nat) -> Seq<Hit<R>> {
        let found = nsw_found(
            self.ds.points@,
            rows(self.graph.neighbors@),
            self.entry,
            query,
            self.ef,
            false,
        );
        first_n(wanted(self.ds.points@, query, found), k)
    }

    open spec fn label(&self) -> Seq<char> {
        "post-filter-nsw"@
    }

    fn name(&self) -> (r: &'static str) {
        "post-filter-nsw"
    }

    fn search(&self, query: &Query<R>, k: usize) -> (found: Vec<Hit<R>>) {
        let raw = nsw_search(&self.ds.points, &self.graph, self.entry, query, self.ef, false);
        let kept = keep_wanted(&self.ds.points, query, raw.as_slice());
        keep_first(kept, k)
    }
}

} // verus!
