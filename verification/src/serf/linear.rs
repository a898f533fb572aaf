//! The exact scan.

use vstd::prelude::*;

use crate::scalar::Scalar;
use crate::serf::data::{in_range, sq_l2, sq_l2_of, Dataset, Point, Query};
use crate::serf::graph::{by_distance, top_k};
use crate::serf::{Hit, RangeAnn};
use crate::sorting::lemma_top_k;
use crate::spaces::payloads;

verus! {

/// The distances and numbers of those of the first `n` points that a query asks
/// for.
pub open spec fn scanned<R: Scalar>(points: Seq<Point<R>>, query: Query<R>, n: nat) -> Seq<
    (R, u32),
>
    decreases n,
{
    if n == 0 {
        Seq::empty()
    } else {
        let before = scanned(points, query, (n - 1) as nat);
        let p = points[n - 1];
        if query.admits(p) {
            before.push((sq_l2_of(p.vec@, query.vec@), p.id))
        } else {
            before
        }
    }
}

/// Distances and numbers as hits.
pub open spec fn as_hits<R>(found: Seq<(R, u32)>) -> Seq<Hit<R>> {
    Seq::new(found.len(), |i: int| Hit { id: found[i].1, dist: found[i].0 })
}

/// The `k` points nearest to the query of those that it asks for.
pub open spec fn linear_hits<R: Scalar>(points: Seq<Point<R>>, query: Query<R>, k: nat) -> Seq<
    Hit<R>,
> {
    as_hits(
        payloads(crate::sorting::top_k(by_distance(scanned(points, query, points.len())), k)),
    )
}

/// Scans the points.
pub fn scan<R: Scalar>(points: &Vec<Point<R>>, query: &Query<R>) -> (r: Vec<(R, u32)>)
    ensures
        r@ == scanned(points@, *query, points@.len()),
{
    let n: usize = points.len();
    let mut r: Vec<(R, u32)> = Vec::new();
    let mut i: usize = 0;
    while i < n
        invariant
            i <= n,
            n == points@.len(),
            r@ == scanned(points@, *query, i as nat),
        decreases n - i,
    {
        let p = &points[i];
        if in_range(p.attr, query.lo, query.hi) {
            let d: R = sq_l2(p.vec.as_slice(), query.vec.as_slice());
            r.push((d, p.id));
        }
        i += 1;
    }
    r
}

/// Turns distances and numbers into hits.
pub fn to_hits<R: Scalar>(found: &[(R, u32)]) -> (r: Vec<Hit<R>>)
    ensures
        r@ == as_hits(found@),
{
    let n: usize = found.len();
    let mut r: Vec<Hit<R>> = Vec::new();
    let mut i: usize = 0;
    while i < n
        invariant
            i <= n,
            n == found@.len(),
            r@ =~= as_hits(found@).take(i as int),
        decreases n - i,
    {
        r.push(Hit { id: found[i].1, dist: found[i].0 });
        i += 1;
    }
    assert(as_hits(found@).take(n as int) =~= as_hits(found@));
    r
}

/// Compares the query with every point in its range.
pub struct LinearPrefilter<'a, R> {
    ds: &'a Dataset<R>,
}

impl<'a, R: Scalar> LinearPrefilter<'a, R> {
    /// The points.
    pub closed spec fn points(&self) -> Seq<Point<R>> {
        self.ds.points@
    }

    /// Scans the points of a collection.
    pub fn new(ds: &'a Dataset<R>) -> (r: Self)
        ensures
            r.points() == ds.points@,
    {
        LinearPrefilter { ds }
    }
}

impl<'a, R: Scalar> RangeAnn<R> for LinearPrefilter<'a, R> {
    open spec fn ready(&self, query: Query<R>) -> bool {
        true
    }

    open spec fn answer(&self, query: Query<R>, k: nat) -> Seq<Hit<R>> {
        linear_hits(self.points(), query, k)
    }

    open spec fn label(&self) -> Seq<char> {
        "linear-prefilter"@
    }

    fn name(&self) -> (r: &'static str) {
        "linear-prefilter"
    }

    fn search(&self, query: &Query<R>, k: usize) -> (found: Vec<Hit<R>>) {
        let cands = scan(&self.ds.points, query);
        let top = top_k(cands, k);
        to_hits(top.as_slice())
    }
}

/// Point `i` stands behind a hit, and the query asks for it.
pub open spec fn stands_for<R: Scalar>(
    points: Seq<Point<R>>,
    query: Query<R>,
    i: int,
    hit: Hit<R>,
) -> bool {
    &&& 0 <= i < points.len()
    &&& query.admits(points[i])
    &&& hit == Hit { id: points[i].id, dist: sq_l2_of(points[i].vec@, query.vec@) }
}

/// A point that the query asks for stands behind a hit.
pub open spec fn is_hit<R: Scalar>(points: Seq<Point<R>>, query: Query<R>, hit: Hit<R>) -> bool {
    exists|i: int| stands_for(points, query, i, hit)
}

/// How many of the first `n` points a query asks for.
pub open spec fn matching<R: Scalar>(points: Seq<Point<R>>, query: Query<R>, n: nat) -> nat
    decreases n,
{
    if n == 0 {
        0
    } else {
        matching(points, query, (n - 1) as nat) + if query.admits(points[n - 1]) {
            1nat
        } else {
            0
        }
    }
}

proof fn lemma_scanned<R: Scalar>(points: Seq<Point<R>>, query: Query<R>, n: nat)
    requires
        n <= points.len(),
    ensures
        scanned(points, query, n).len() == matching(points, query, n),
        forall|j: int|
            0 <= j < as_hits(scanned(points, query, n)).len() ==> is_hit(
                points,
                query,
                #[trigger] as_hits(scanned(points, query, n))[j],
            ),
    decreases n,
{
    if n > 0 {
        let m = (n - 1) as nat;
        lemma_scanned(points, query, m);
        let a = as_hits(scanned(points, query, m));
        let b = as_hits(scanned(points, query, n));
        assert forall|j: int| 0 <= j < b.len() implies is_hit(points, query, #[trigger] b[j]) by {
            if j < a.len() {
                assert(b[j] == a[j]);
            } else {
                assert(stands_for(points, query, n - 1, b[j]));
            }
        }
    }
}

/// The exact scan reports `k` points, or all that the query asks for where these
/// are fewer; only such points; and by ascending distance.
pub proof fn lemma_linear_hits<R: Scalar>(points: Seq<Point<R>>, query: Query<R>, k: nat)
    ensures
        ({
            let found = linear_hits(points, query, k);
            let all = matching(points, query, points.len());
            &&& found.len() == if k <= all {
                k
            } else {
                all
            }
            &&& forall|j: int|
                0 <= j < found.len() ==> is_hit(points, query, #[trigger] found[j])
            &&& forall|i: int, j: int|
                0 <= i <= j < found.len() ==> (#[trigger] found[i]).dist.key_of() <= (
                #[trigger] found[j]).dist.key_of()
        }),
{
    let n = points.len();
    let list = scanned(points, query, n);
    let keyed = by_distance(list);
    let top = crate::sorting::top_k(keyed, k);
    let found = linear_hits(points, query, k);
    lemma_scanned(points, query, n);
    lemma_top_k(keyed, k);
    assert forall|j: int| 0 <= j < top.len() implies keyed.contains(#[trigger] top[j]) by {}
    assert forall|j: int| 0 <= j < found.len() implies is_hit(
        points,
        query,
        #[trigger] found[j],
    ) by {
        let x = choose|x: int| 0 <= x < list.len() && keyed[x] == top[j];
        assert(keyed[x] == top[j]);
        assert(as_hits(list)[x] == found[j]);
    }
    assert forall|i: int, j: int| 0 <= i <= j < found.len() implies (
    #[trigger] found[i]).dist.key_of() <= (#[trigger] found[j]).dist.key_of() by {
        assert(top[i].0 <= top[j].0);
        let x = choose|x: int| 0 <= x < list.len() && keyed[x] == top[i];
        let y = choose|y: int| 0 <= y < list.len() && keyed[y] == top[j];
        assert(keyed[x] == top[i] && keyed[y] == top[j]);
    }
}

} // verus!
