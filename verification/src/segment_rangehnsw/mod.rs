//! Range-filtered search over a segment tree of proximity graphs.
//!
//! A query asks for the points nearest to a vector among those whose key lies
//! in a window.

pub mod dist;
pub mod exact;
pub mod graph;
pub mod samples;
pub mod segment;

use vstd::prelude::*;

use crate::metric::Distance;
use crate::segment_rangehnsw::graph::Hit;
use crate::sorting::{lemma_top_k, select_top_k, top_k};
use crate::spaces::{payloads, take_payloads};

pub use crate::segment_rangehnsw::graph::Graph;
pub use crate::segment_rangehnsw::segment::SegmentRangeIndex;

verus! {

/// A point: the caller's number, range key, and vector.
pub type Point<T> = (u32, u64, Vec<T>);

/// A point, with its vector as a sequence.
pub open spec fn point_view<T>(p: Point<T>) -> (u32, u64, Seq<T>) {
    (p.0, p.1, p.2@)
}

/// Points, with their vectors as sequences.
pub open spec fn points_view<T>(points: Seq<Point<T>>) -> Seq<(u32, u64, Seq<T>)> {
    Seq::new(points.len(), |i: int| point_view(points[i]))
}

/// The hit that a point is for query `q`.
pub open spec fn hit_of<T, D: Distance<T>>(metric: D, q: Seq<T>, p: (u32, u64, Seq<T>)) -> Hit {
    (metric.spec_key(q, p.2), p.0, p.1)
}

/// The points in the window from `lo` to `hi` as hits, in their order.
pub open spec fn window_hits<T, D: Distance<T>>(
    metric: D,
    q: Seq<T>,
    points: Seq<(u32, u64, Seq<T>)>,
    lo: u64,
    hi: u64,
) -> Seq<Hit>
    decreases points.len(),
{
    if points.len() == 0 {
        Seq::empty()
    } else {
        let rest = window_hits(metric, q, points.drop_last(), lo, hi);
        if lo <= points.last().1 <= hi {
            rest.push(hit_of(metric, q, points.last()))
        } else {
            rest
        }
    }
}

/// Hits with their distances as keys.
pub open spec fn by_distance(hits: Seq<Hit>) -> Seq<(u64, Hit)> {
    Seq::new(hits.len(), |i: int| (hits[i].0, hits[i]))
}

/// Every hit in the window is the hit of a point in the window, and every such
/// point has one.
pub proof fn lemma_window_hits<T, D: Distance<T>>(
    metric: D,
    q: Seq<T>,
    points: Seq<(u32, u64, Seq<T>)>,
    lo: u64,
    hi: u64,
)
    ensures
        forall|h: Hit| #[trigger]
            window_hits(metric, q, points, lo, hi).contains(h) ==> exists|i: int|
                0 <= i < points.len() && lo <= points[i].1 <= hi && h == hit_of(
                    metric,
                    q,
                    #[trigger] points[i],
                ),
        forall|i: int|
            0 <= i < points.len() && lo <= (#[trigger] points[i]).1 <= hi ==> window_hits(
                metric,
                q,
                points,
                lo,
                hi,
            ).contains(hit_of(metric, q, points[i])),
    decreases points.len(),
{
    if points.len() > 0 {
        let t = points.drop_last();
        lemma_window_hits(metric, q, t, lo, hi);
        let a = window_hits(metric, q, t, lo, hi);
        let b = window_hits(metric, q, points, lo, hi);
        assert forall|h: Hit| #[trigger] b.contains(h) implies exists|i: int|
            0 <= i < points.len() && lo <= points[i].1 <= hi && h == hit_of(
                metric,
                q,
                #[trigger] points[i],
            ) by {
            let j = choose|j: int| 0 <= j < b.len() && b[j] == h;
            if j < a.len() {
                assert(a[j] == h);
                assert(a.contains(h));
                let i = choose|i: int|
                    0 <= i < t.len() && lo <= t[i].1 <= hi && h == hit_of(metric, q, #[trigger] t[i]);
                assert(points[i] == t[i]);
            } else {
                assert(h == hit_of(metric, q, points[points.len() - 1]));
            }
        }
        assert forall|i: int| 0 <= i < points.len() && lo <= (#[trigger] points[i]).1
            <= hi implies b.contains(hit_of(metric, q, points[i])) by {
            let h = hit_of(metric, q, points[i]);
            if i < t.len() {
                assert(t[i] == points[i]);
                assert(a.contains(h));
                let j = choose|j: int| 0 <= j < a.len() && a[j] == h;
                assert(b[j] == h);
            } else {
                assert(b[b.len() - 1] == h);
            }
        }
    }
}

/// Appends the hits of the points from `from` to `to` that are in the window.
pub(crate) fn scan_window<T, D: Distance<T>>(
    metric: &D,
    q: &[T],
    points: &[Point<T>],
    from: usize,
    to: usize,
    lo: u64,
    hi: u64,
    out: &mut Vec<Hit>,
)
    requires
        from <= to <= points@.len(),
    ensures
        final(out)@ == old(out)@ + window_hits(
            *metric,
            q@,
            points_view(points@).subrange(from as int, to as int),
            lo,
            hi,
        ),
{
    let ghost all = points_view(points@).subrange(from as int, to as int);
    let mut i: usize = from;
    assert(all.take(0) =~= Seq::empty());
    assert(out@ =~= old(out)@ + window_hits(*metric, q@, all.take(0), lo, hi));
    while i < to
        invariant
            from <= i <= to,
            to <= points@.len(),
            all == points_view(points@).subrange(from as int, to as int),
            out@ == old(out)@ + window_hits(*metric, q@, all.take(i - from), lo, hi),
        decreases to - i,
    {
        let p: &Point<T> = &points[i];
        proof {
            assert(all.take(i + 1 - from).drop_last() =~= all.take(i - from));
            assert(all.take(i + 1 - from).last() == point_view(*p));
        }
        if lo <= p.1 && p.1 <= hi {
            let d: u64 = metric.key(q, p.2.as_slice());
            out.push((d, p.0, p.1));
        }
        assert(out@ =~= old(out)@ + window_hits(*metric, q@, all.take(i + 1 - from), lo, hi));
        i += 1;
    }
    assert(all.take(to - from) =~= all);
}

/// The first `k` hits by ascending distance; of two hits at one distance the
/// earlier one comes first.
pub(crate) fn nearest_hits(hits: &[Hit], k: usize) -> (r: Vec<Hit>)
    ensures
        r@ == payloads(top_k(by_distance(hits@), k as nat)),
{
    let n: usize = hits.len();
    let mut keyed: Vec<(u64, Hit)> = Vec::new();
    let mut i: usize = 0;
    while i < n
        invariant
            i <= n,
            n == hits@.len(),
            keyed@ =~= by_distance(hits@).take(i as int),
        decreases n - i,
    {
        keyed.push((hits[i].0, hits[i]));
        i += 1;
    }
    assert(by_distance(hits@).take(n as int) =~= by_distance(hits@));
    let top = select_top_k(keyed.as_slice(), k);
    take_payloads(top.as_slice())
}

/// Scans all points for the `k` nearest ones in the window from `lo` to `hi`.
pub fn brute_force_range<T, D: Distance<T>>(
    metric: &D,
    points: &[Point<T>],
    q: &[T],
    lo: u64,
    hi: u64,
    k: usize,
) -> (r: Vec<Hit>)
    ensures
        r@ == payloads(
            top_k(
                by_distance(window_hits(*metric, q@, points_view(points@), lo, hi)),
                k as nat,
            ),
        ),
        forall|i: int| 0 <= i < r@.len() ==> lo <= (#[trigger] r@[i]).2 <= hi,
{
    let mut hits: Vec<Hit> = Vec::new();
    scan_window(metric, q, points, 0, points.len(), lo, hi, &mut hits);
    let ghost all = window_hits(*metric, q@, points_view(points@), lo, hi);
    proof {
        assert(points_view(points@).subrange(0, points@.len() as int) =~= points_view(points@));
        assert(hits@ =~= all);
        lemma_window_hits(*metric, q@, points_view(points@), lo, hi);
        lemma_top_k(by_distance(all), k as nat);
    }
    let r = nearest_hits(hits.as_slice(), k);
    proof {
        let top = top_k(by_distance(all), k as nat);
        assert forall|i: int| 0 <= i < r@.len() implies lo <= (#[trigger] r@[i]).2 <= hi by {
            assert(by_distance(all).contains(top[i]));
            let j = choose|j: int| 0 <= j < by_distance(all).len() && by_distance(all)[j] == top[i];
            assert(all[j] == r@[i]);
            assert(all.contains(all[j]));
        }
    }
    r
}

} // verus!
