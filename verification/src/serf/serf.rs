//! Graph search that stays within the range.

use vstd::prelude::*;

use crate::beam::is_graph;
use crate::scalar::Scalar;
use crate::serf::data::{Dataset, Point, Query};
use crate::serf::graph::{top_k, Graph};
use crate::serf::linear::{lemma_linear_hits, linear_hits, matching, scan, stands_for, to_hits};
use crate::serf::post_filter::{
    keep_first, keep_wanted, lemma_wanted, nsw_found, nsw_search, wanted,
};
use crate::serf::{Hit, RangeAnn};
use crate::sorting::first_n;
use crate::table::rows;

verus! {

/// A number brought into the range from 0 to `n - 1`.
pub open spec fn clamped(x: int, n: nat) -> int
    recommends
        n > 0,
{
    if x < 0 {
        0
    } else if x > n - 1 {
        n - 1
    } else {
        x
    }
}

/// Where the search for a query starts: at the point whose position is nearest to
/// the middle of the range.
pub open spec fn entry_of<R: Scalar>(query: Query<R>, n: nat) -> int {
    clamped(query.lo.plus_of(query.hi).times_of(R::ratio_of(1, 2)).nearest_of() as int, n)
}

/// What the search for a query finds without scanning the points.
pub open spec fn guided_hits<R: Scalar>(
    points: Seq<Point<R>>,
    adj: Seq<Seq<u32>>,
    query: Query<R>,
    ef: usize,
) -> Seq<Hit<R>> {
    let entry = entry_of(query, points.len()) as u32;
    wanted(points, query, nsw_found(points, adj, entry, query, ef, true))
}

/// What the search for a query finds: if the graph search falls short of `k`
/// hits, the points are scanned.
pub open spec fn serf_hits<R: Scalar>(
    points: Seq<Point<R>>,
    adj: Seq<Seq<u32>>,
    query: Query<R>,
    ef: usize,
    k: nat,
) -> Seq<Hit<R>> {
    let hits = guided_hits(points, adj, query, ef);
    if hits.len() < k {
        linear_hits(points, query, k)
    } else {
        first_n(hits, k)
    }
}

/// Searches a graph along points in the range only.
pub struct SerfIndex<'a, R> {
    pub ds: &'a Dataset<R>,
    pub graph: Graph,
    /// The number of results of a graph search.
    pub ef: usize,
}

impl<'a, R: Scalar> SerfIndex<'a, R> {
    /// Searches `graph`.
    pub fn new(ds: &'a Dataset<R>, graph: Graph, ef: usize) -> (r: Self)
        ensures
            r.ds == ds,
            r.graph == graph,
            r.ef == ef,
    {
        SerfIndex { ds, graph, ef }
    }

    /// Where the search for a query starts.
    pub fn entry_for(&self, q: &Query<R>) -> (r: u32)
        requires
            0 < self.ds.points@.len() <= 0x1_0000_0000,
        ensures
            r == entry_of(*q, self.ds.points@.len()),
            r < self.ds.points@.len(),
    {
        let mid: i64 = q.lo.plus(q.hi).times(R::ratio(1, 2)).nearest();
        let last: i64 = self.ds.points.len() as i64 - 1;
        if mid < 0 {
            0
        } else if mid > last {
            last as u32
        } else {
            mid as u32
        }
    }
}

impl<'a, R: Scalar> RangeAnn<R> for SerfIndex<'a, R> {
    open spec fn ready(&self, query: Query<R>) -> bool {
        &&& is_graph(rows(self.graph.neighbors@), self.ds.points@.len())
        &&& 0 < self.ds.points@.len() <= 0x1_0000_0000
    }

    open spec fn answer(&self, query: Query<R>, k: nat) -> Seq<Hit<R>> {
        serf_hits(self.ds.points@, rows(self.graph.neighbors@), query, self.ef, k)
    }

    open spec fn label(&self) -> Seq<char> {
        "serf-edge-pruned"@
    }

    fn name(&self) -> (r: &'static str) {
        "serf-edge-pruned"
    }

    fn search(&self, query: &Query<R>, k: usize) -> (found: Vec<Hit<R>>) {
        let entry: u32 = self.entry_for(query);
        let raw = nsw_search(&self.ds.points, &self.graph, entry, query, self.ef, true);
        let kept = keep_wanted(&self.ds.points, query, raw.as_slice());
        if kept.len() < k {
            let all = scan(&self.ds.points, query);
            let top = top_k(all, k);
            to_hits(top.as_slice())
        } else {
            keep_first(kept, k)
        }
    }
}

/// A search finds `k` points, or all that the query asks for where these are
/// fewer; only such points; and by ascending distance.
pub proof fn lemma_serf_hits<R: Scalar>(
    points: Seq<Point<R>>,
    adj: Seq<Seq<u32>>,
    query: Query<R>,
    ef: usize,
    k: nat,
)
    requires
        is_graph(adj, points.len()),
        0 < points.len() <= 0x1_0000_0000,
        forall|i: int| 0 <= i < points.len() ==> (#[trigger] points[i]).id == i,
    ensures
        ({
            let found = serf_hits(points, adj, query, ef, k);
            let all = matching(points, query, points.len());
            &&& found.len() == if k <= all {
                k
            } else {
                all
            }
            &&& forall|j: int|
                0 <= j < found.len() ==> stands_for(
                    points,
                    query,
                    found[j].id as int,
                    #[trigger] found[j],
                )
            &&& forall|i: int, j: int|
                0 <= i <= j < found.len() ==> (#[trigger] found[i]).dist.key_of() <= (
                #[trigger] found[j]).dist.key_of()
        }),
{
    let hits = guided_hits(points, adj, query, ef);
    let found = serf_hits(points, adj, query, ef, k);
    let entry = entry_of(query, points.len()) as u32;
    if hits.len() < k {
        lemma_linear_hits(points, query, k);
        assert forall|j: int| 0 <= j < found.len() implies stands_for(
            points,
            query,
            found[j].id as int,
            #[trigger] found[j],
        ) by {
            let i = choose|i: int| stands_for(points, query, i, found[j]);
            assert(points[i].id == i);
        }
    } else {
        lemma_wanted(points, adj, entry, query, ef, true);
        assert forall|j: int| 0 <= j < found.len() implies stands_for(
            points,
            query,
            found[j].id as int,
            #[trigger] found[j],
        ) by {
            assert(found[j] == hits[j]);
            assert(points[hits[j].id as int].id == hits[j].id);
        }
        lemma_hits_match(points, query, found);
    }
}

/// Different points that the query asks for are no more than there are.
proof fn lemma_hits_match<R: Scalar>(points: Seq<Point<R>>, query: Query<R>, found: Seq<Hit<R>>)
    requires
        forall|j: int|
            0 <= j < found.len() ==> (#[trigger] found[j]).id < points.len() && query.admits(
                points[found[j].id as int],
            ),
        forall|i: int, j: int|
            0 <= i < j < found.len() ==> (#[trigger] found[i]).id != (#[trigger] found[j]).id,
    ensures
        found.len() <= matching(points, query, points.len()),
{
    broadcast use vstd::set::group_set_axioms;

    let ids = Seq::new(found.len(), |i: int| found[i].id as int);
    assert(ids.no_duplicates()) by {
        assert forall|i: int, j: int| 0 <= i < ids.len() && 0 <= j < ids.len() && i != j implies
            ids[i] != ids[j] by {
            if i < j {
                assert(found[i].id != found[j].id);
            } else {
                assert(found[j].id != found[i].id);
            }
        }
    }
    ids.unique_seq_to_set();
    let all = Set::new(|i: int| 0 <= i < points.len() && query.admits(points[i]));
    lemma_matching_set(points, query, points.len());
    assert(ids.to_set().subset_of(all)) by {
        assert forall|x: int| ids.to_set().contains(x) implies all.contains(x) by {
            let j = choose|j: int| 0 <= j < ids.len() && ids[j] == x;
            assert(query.admits(points[found[j].id as int]));
        }
    }
    vstd::set_lib::lemma_len_subset(ids.to_set(), all);
}

proof fn lemma_matching_set<R: Scalar>(points: Seq<Point<R>>, query: Query<R>, n: nat)
    requires
        n <= points.len(),
    ensures
        Set::new(|i: int| 0 <= i < n && query.admits(points[i])).finite(),
        Set::new(|i: int| 0 <= i < n && query.admits(points[i])).len() == matching(
            points,
            query,
            n,
        ),
    decreases n,
{
    broadcast use vstd::set::group_set_axioms;

    let now = Set::new(|i: int| 0 <= i < n && query.admits(points[i]));
    if n == 0 {
        assert(now =~= Set::empty());
    } else {
        let m = (n - 1) as nat;
        lemma_matching_set(points, query, m);
        let before = Set::new(|i: int| 0 <= i < m && query.admits(points[i]));
        if query.admits(points[n - 1]) {
            assert(now =~= before.insert(n - 1));
        } else {
            assert(now =~= before);
        }
    }
}

} // verus!
