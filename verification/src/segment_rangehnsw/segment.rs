//! Segment tree of proximity graphs for range-filtered search.
//!
//! Points are sorted by their range key. Each node of the tree owns a slice of
//! the sorted points and a graph over it. A window of keys is covered by whole
//! slices, which are searched through their graphs, and by leaves at its ends,
//! which are scanned.

use vstd::arithmetic::power2::{
    lemma_pow2_pos, lemma_pow2_strictly_increases, lemma_pow2_unfold, pow2,
};
use vstd::prelude::*;

use crate::beam::search_from;
use crate::beam_laws::lemma_search_from;
use crate::bytes::{
    bytes_for, bytes_for_all, cells, clamped, fits, held, held_by_all, lemma_rooms_fit, room, rooms_fit,
};
use crate::metric::Distance;
use crate::order::ZERO_KEY;
use crate::segment_rangehnsw::graph::{
    as_hits, closest, graph_rooms_fit, grown, held_by_graph, lemma_grown, lemma_held_by_graph, Graph,
    Hit, ENTRY,
};
use crate::segment_rangehnsw::{
    by_distance, hit_of, nearest_hits, point_view, points_view, scan_window, window_hits, Point,
};
use crate::sorting::{
    ascending, first_n, keyed_by, lemma_sort_order, lemma_stable_sort, lemma_stable_sort_contains,
    sort_order, stable_sort,
};
use crate::spaces::{excluding, payloads};
use crate::table::{copy_row, rows};

verus! {

/// The range keys of points.
pub open spec fn keys_of<T>(points: Seq<(u32, u64, Seq<T>)>) -> Seq<u64> {
    Seq::new(points.len(), |i: int| points[i].1)
}

/// The caller's numbers of points.
pub open spec fn gids_of<T>(points: Seq<(u32, u64, Seq<T>)>) -> Seq<u32> {
    Seq::new(points.len(), |i: int| points[i].0)
}

/// The vectors of points.
pub open spec fn vecs_of<T>(points: Seq<(u32, u64, Seq<T>)>) -> Seq<Seq<T>> {
    Seq::new(points.len(), |i: int| points[i].2)
}

/// Points by ascending key; points with equal keys keep their order.
pub open spec fn sorted_points<T>(points: Seq<(u32, u64, Seq<T>)>) -> Seq<(u32, u64, Seq<T>)> {
    payloads(stable_sort(keyed_by(keys_of(points), points)))
}

/// Keys do not decrease.
pub open spec fn keys_ascend(keys: Seq<u64>) -> bool {
    forall|i: int, j: int| 0 <= i <= j < keys.len() ==> keys[i] <= keys[j]
}

/// A slice of the sorted points that a query looks at.
pub ghost struct Piece {
    pub start: int,
    pub end: int,
    /// All points of the slice are in the window, and the graph over the slice
    /// is searched. Otherwise the slice is scanned.
    pub whole: bool,
}

/// Where a slice is split.
pub open spec fn middle(a: int, b: int) -> int {
    a + (b - a) / 2
}

/// The slices between `a` and `b` that a query for the window from `lo` to `hi`
/// looks at.
pub open spec fn pieces(keys: Seq<u64>, leaf: nat, lo: u64, hi: u64, a: int, b: int) -> Seq<Piece>
    decreases b - a,
{
    if a >= b || keys[b - 1] < lo || keys[a] > hi {
        Seq::empty()
    } else if keys[a] >= lo && keys[b - 1] <= hi {
        seq![Piece { start: a, end: b, whole: true }]
    } else if b - a <= leaf || b - a <= 1 {
        seq![Piece { start: a, end: b, whole: false }]
    } else {
        pieces(keys, leaf, lo, hi, a, middle(a, b)) + pieces(keys, leaf, lo, hi, middle(a, b), b)
    }
}

/// The number of levels of the tree over `len` points.
pub open spec fn height(len: int, leaf: nat) -> nat
    decreases len,
{
    if len <= leaf || len <= 1 {
        1
    } else {
        1 + height(len - len / 2, leaf)
    }
}

proof fn lemma_height_monotone(a: int, b: int, leaf: nat)
    requires
        a <= b,
    ensures
        height(a, leaf) <= height(b, leaf),
    decreases b,
{
    if b > leaf && b > 1 && a > leaf && a > 1 {
        lemma_height_monotone(a - a / 2, b - b / 2, leaf);
    }
}

/// The pieces of a window lie in order between `a` and `b`. Every point in the
/// window lies in one of them, and all points of a whole piece are in the
/// window.
pub proof fn lemma_pieces(keys: Seq<u64>, leaf: nat, lo: u64, hi: u64, a: int, b: int)
    requires
        keys_ascend(keys),
        0 <= a <= b <= keys.len(),
    ensures
        ({
            let ps = pieces(keys, leaf, lo, hi, a, b);
            &&& forall|i: int|
                0 <= i < ps.len() ==> a <= (#[trigger] ps[i]).start < ps[i].end <= b
            &&& forall|i: int, j: int|
                0 <= i < j < ps.len() ==> (#[trigger] ps[i]).end <= (#[trigger] ps[j]).start
            &&& forall|i: int, p: int|
                0 <= i < ps.len() && (#[trigger] ps[i]).whole && ps[i].start <= p < ps[i].end ==> lo
                    <= #[trigger] keys[p] <= hi
            &&& forall|p: int|
                a <= p < b && lo <= #[trigger] keys[p] <= hi ==> exists|i: int|
                    0 <= i < ps.len() && (#[trigger] ps[i]).start <= p < ps[i].end
        }),
    decreases b - a,
{
    let ps = pieces(keys, leaf, lo, hi, a, b);
    if a >= b || keys[b - 1] < lo || keys[a] > hi {
        assert forall|p: int| a <= p < b && lo <= #[trigger] keys[p] <= hi implies exists|i: int|
            0 <= i < ps.len() && (#[trigger] ps[i]).start <= p < ps[i].end by {
            assert(keys[a] <= keys[p] <= keys[b - 1]);
        }
    } else if (keys[a] >= lo && keys[b - 1] <= hi) || b - a <= leaf || b - a <= 1 {
        assert(ps[0].start == a && ps[0].end == b);
        assert forall|p: int| a <= p < b && lo <= #[trigger] keys[p] <= hi implies exists|i: int|
            0 <= i < ps.len() && (#[trigger] ps[i]).start <= p < ps[i].end by {
            assert(ps[0].start <= p < ps[0].end);
        }
    } else {
        let mid = middle(a, b);
        lemma_pieces(keys, leaf, lo, hi, a, mid);
        lemma_pieces(keys, leaf, lo, hi, mid, b);
        let l = pieces(keys, leaf, lo, hi, a, mid);
        let r = pieces(keys, leaf, lo, hi, mid, b);
        assert forall|i: int| 0 <= i < ps.len() implies a <= (#[trigger] ps[i]).start < ps[i].end
            <= b by {
            if i < l.len() {
                assert(ps[i] == l[i]);
            } else {
                assert(ps[i] == r[i - l.len()]);
            }
        }
        assert forall|i: int, j: int| 0 <= i < j < ps.len() implies (#[trigger] ps[i]).end <= (
        #[trigger] ps[j]).start by {
            if j < l.len() {
                assert(ps[i] == l[i] && ps[j] == l[j]);
            } else if i >= l.len() {
                assert(ps[i] == r[i - l.len()] && ps[j] == r[j - l.len()]);
            } else {
                assert(ps[i] == l[i] && ps[j] == r[j - l.len()]);
            }
        }
        assert forall|i: int, p: int|
            0 <= i < ps.len() && (#[trigger] ps[i]).whole && ps[i].start <= p
                < ps[i].end implies lo <= #[trigger] keys[p] <= hi by {
            if i < l.len() {
                assert(ps[i] == l[i]);
            } else {
                assert(ps[i] == r[i - l.len()]);
            }
        }
        assert forall|p: int| a <= p < b && lo <= #[trigger] keys[p] <= hi implies exists|i: int|
            0 <= i < ps.len() && (#[trigger] ps[i]).start <= p < ps[i].end by {
            if p < mid {
                let i = choose|i: int|
                    0 <= i < l.len() && (#[trigger] l[i]).start <= p < l[i].end;
                assert(ps[i] == l[i]);
            } else {
                let i = choose|i: int|
                    0 <= i < r.len() && (#[trigger] r[i]).start <= p < r[i].end;
                assert(ps[i + l.len()] == r[i]);
            }
        }
    }
}

/// A window that is open at one end is covered by no more pieces than the tree
/// has levels.
proof fn lemma_pieces_open(keys: Seq<u64>, leaf: nat, lo: u64, hi: u64, a: int, b: int)
    requires
        keys_ascend(keys),
        0 <= a < b <= keys.len(),
        keys[a] >= lo || keys[b - 1] <= hi,
    ensures
        pieces(keys, leaf, lo, hi, a, b).len() <= height(b - a, leaf),
    decreases b - a,
{
    if keys[b - 1] < lo || keys[a] > hi || (keys[a] >= lo && keys[b - 1] <= hi) || b - a <= leaf || b
        - a <= 1 {
    } else {
        let mid = middle(a, b);
        assert(a < mid < b);
        assert(keys[a] <= keys[mid - 1] <= keys[mid] <= keys[b - 1]);
        lemma_pieces_open(keys, leaf, lo, hi, a, mid);
        lemma_pieces_open(keys, leaf, lo, hi, mid, b);
        lemma_height_monotone(mid - a, b - mid, leaf);
        assert(b - mid == (b - a) - (b - a) / 2);
    }
}

/// A window is covered by no more pieces than twice the number of levels of the
/// tree.
pub proof fn lemma_pieces_few(keys: Seq<u64>, leaf: nat, lo: u64, hi: u64, a: int, b: int)
    requires
        keys_ascend(keys),
        0 <= a <= b <= keys.len(),
    ensures
        pieces(keys, leaf, lo, hi, a, b).len() <= 2 * height(b - a, leaf),
    decreases b - a,
{
    if a >= b || keys[b - 1] < lo || keys[a] > hi || (keys[a] >= lo && keys[b - 1] <= hi) || b - a
        <= leaf || b - a <= 1 {
    } else {
        let mid = middle(a, b);
        assert(a < mid < b);
        assert(keys[a] <= keys[mid - 1] <= keys[mid] <= keys[b - 1]);
        lemma_height_monotone(mid - a, b - mid, leaf);
        assert(b - mid == (b - a) - (b - a) / 2);
        let l = pieces(keys, leaf, lo, hi, a, mid);
        let r = pieces(keys, leaf, lo, hi, mid, b);
        assert(pieces(keys, leaf, lo, hi, a, b).len() == l.len() + r.len());
        if keys[mid - 1] < lo {
            assert(l.len() == 0);
            lemma_pieces_few(keys, leaf, lo, hi, mid, b);
        } else if keys[mid] > hi {
            assert(r.len() == 0);
            lemma_pieces_few(keys, leaf, lo, hi, a, mid);
        } else {
            lemma_pieces_open(keys, leaf, lo, hi, a, mid);
            lemma_pieces_open(keys, leaf, lo, hi, mid, b);
        }
    }
}

/// How an index was built and what it was built over.
pub ghost struct Tree<T, D> {
    /// The points by ascending key.
    pub points: Seq<(u32, u64, Seq<T>)>,
    pub leaf: nat,
    pub m: nat,
    pub ef_construction: usize,
    pub metric: D,
}

impl<T, D: Distance<T>> Tree<T, D> {
    /// What searching the graph over a slice returns.
    pub open spec fn slice_hits(self, q: Seq<T>, ef: usize, a: int, b: int) -> Seq<Hit> {
        let points = self.points.subrange(a, b);
        let vecs = vecs_of(points);
        if points.len() == 0 {
            Seq::empty()
        } else {
            as_hits(
                search_from(
                    excluding(self.metric, q, vecs, Seq::empty()),
                    closest(ef),
                    grown(self.metric, vecs, self.m, self.ef_construction, vecs.len()),
                    ENTRY,
                ),
                gids_of(points),
                keys_of(points),
            )
        }
    }

    /// What a query finds in a piece.
    pub open spec fn piece_hits(self, q: Seq<T>, lo: u64, hi: u64, ef: usize, p: Piece) -> Seq<Hit> {
        if p.whole {
            self.slice_hits(q, ef, p.start, p.end)
        } else {
            window_hits(self.metric, q, self.points.subrange(p.start, p.end), lo, hi)
        }
    }

    /// What a query finds in pieces.
    pub open spec fn all_hits(self, q: Seq<T>, lo: u64, hi: u64, ef: usize, ps: Seq<Piece>) -> Seq<
        Hit,
    >
        decreases ps.len(),
    {
        if ps.len() == 0 {
            Seq::empty()
        } else {
            self.all_hits(q, lo, hi, ef, ps.drop_last()) + self.piece_hits(
                q,
                lo,
                hi,
                ef,
                ps.last(),
            )
        }
    }

    /// What a query finds.
    pub open spec fn query_hits(self, q: Seq<T>, lo: u64, hi: u64, ef: usize) -> Seq<Hit> {
        self.all_hits(
            q,
            lo,
            hi,
            ef,
            pieces(keys_of(self.points), self.leaf, lo, hi, 0, self.points.len() as int),
        )
    }

    /// What a query returns.
    pub open spec fn answer(self, q: Seq<T>, k: nat, lo: u64, hi: u64, ef: usize) -> Seq<Hit> {
        first_n(
            deduped(payloads(stable_sort(by_distance(self.query_hits(q, lo, hi, ef))))),
            k,
        )
    }
}

/// Without the hits that follow one with the same number.
pub open spec fn deduped(hits: Seq<Hit>) -> Seq<Hit>
    decreases hits.len(),
{
    if hits.len() == 0 {
        hits
    } else {
        let d = deduped(hits.drop_last());
        if d.len() > 0 && d.last().1 == hits.last().1 {
            d
        } else {
            d.push(hits.last())
        }
    }
}

proof fn lemma_all_hits_add<T, D: Distance<T>>(
    tree: Tree<T, D>,
    q: Seq<T>,
    lo: u64,
    hi: u64,
    ef: usize,
    l: Seq<Piece>,
    r: Seq<Piece>,
)
    ensures
        tree.all_hits(q, lo, hi, ef, l + r) == tree.all_hits(q, lo, hi, ef, l) + tree.all_hits(
            q,
            lo,
            hi,
            ef,
            r,
        ),
    decreases r.len(),
{
    if r.len() == 0 {
        assert(l + r =~= l);
        assert(tree.all_hits(q, lo, hi, ef, l) + Seq::empty() =~= tree.all_hits(q, lo, hi, ef, l));
    } else {
        lemma_all_hits_add(tree, q, lo, hi, ef, l, r.drop_last());
        assert((l + r).drop_last() =~= l + r.drop_last());
        assert(tree.all_hits(q, lo, hi, ef, l + r) =~= tree.all_hits(q, lo, hi, ef, l)
            + tree.all_hits(q, lo, hi, ef, r));
    }
}

/// `h` is the hit of a point between `a` and `b` that is in the window.
pub open spec fn drawn<T, D: Distance<T>>(
    tree: Tree<T, D>,
    q: Seq<T>,
    lo: u64,
    hi: u64,
    a: int,
    b: int,
    h: Hit,
) -> bool {
    exists|p: int|
        a <= p < b && lo <= (#[trigger] tree.points[p]).1 <= hi && h == hit_of(
            tree.metric,
            q,
            tree.points[p],
        )
}

/// No two hits have the same number.
pub open spec fn numbers_differ(hits: Seq<Hit>) -> bool {
    forall|i: int, j: int|
        0 <= i < j < hits.len() ==> (#[trigger] hits[i]).1 != (#[trigger] hits[j]).1
}

/// No two points have the same number.
pub open spec fn points_differ<T>(points: Seq<(u32, u64, Seq<T>)>) -> bool {
    forall|i: int, j: int|
        0 <= i < j < points.len() ==> (#[trigger] points[i]).0 != (#[trigger] points[j]).0
}

proof fn lemma_slice_hits<T, D: Distance<T>>(
    tree: Tree<T, D>,
    q: Seq<T>,
    lo: u64,
    hi: u64,
    ef: usize,
    a: int,
    b: int,
)
    requires
        0 <= a <= b <= tree.points.len() <= 0x1_0000_0000,
        forall|p: int| a <= p < b ==> lo <= #[trigger] keys_of(tree.points)[p] <= hi,
    ensures
        forall|i: int|
            0 <= i < tree.slice_hits(q, ef, a, b).len() ==> drawn(
                tree,
                q,
                lo,
                hi,
                a,
                b,
                #[trigger] tree.slice_hits(q, ef, a, b)[i],
            ),
        points_differ(tree.points) ==> numbers_differ(tree.slice_hits(q, ef, a, b)),
{
    let points = tree.points.subrange(a, b);
    let vecs = vecs_of(points);
    let hits = tree.slice_hits(q, ef, a, b);
    if points.len() > 0 {
        let adj = grown(tree.metric, vecs, tree.m, tree.ef_construction, vecs.len());
        lemma_grown(tree.metric, vecs, tree.m, tree.ef_construction, vecs.len());
        let nodes = excluding(tree.metric, q, vecs, Seq::empty());
        lemma_search_from(nodes, closest(ef), adj, ENTRY);
        let found = search_from(nodes, closest(ef), adj, ENTRY);
        assert forall|i: int| 0 <= i < hits.len() implies drawn(
            tree,
            q,
            lo,
            hi,
            a,
            b,
            #[trigger] hits[i],
        ) by {
            let p = a + found[i].1;
            assert(found[i].1 < points.len());
            assert(tree.points[p] == points[found[i].1 as int]);
            assert(lo <= keys_of(tree.points)[p] <= hi);
            assert(nodes.rank_of(found[i].1) == tree.metric.spec_key(q, tree.points[p].2));
        }
        if points_differ(tree.points) {
            assert forall|i: int, j: int| 0 <= i < j < hits.len() implies (#[trigger] hits[i]).1
                != (#[trigger] hits[j]).1 by {
                assert(found[i].1 != found[j].1);
                assert(tree.points[a + found[i].1] == points[found[i].1 as int]);
                assert(tree.points[a + found[j].1] == points[found[j].1 as int]);
            }
        }
    }
}

pub proof fn lemma_scan_hits<T, D: Distance<T>>(
    tree: Tree<T, D>,
    q: Seq<T>,
    lo: u64,
    hi: u64,
    a: int,
    b: int,
)
    requires
        0 <= a <= b <= tree.points.len(),
    ensures
        ({
            let hits = window_hits(tree.metric, q, tree.points.subrange(a, b), lo, hi);
            &&& forall|i: int|
                0 <= i < hits.len() ==> drawn(tree, q, lo, hi, a, b, #[trigger] hits[i])
            &&& points_differ(tree.points) ==> numbers_differ(hits)
        }),
    decreases b - a,
{
    let points = tree.points.subrange(a, b);
    let hits = window_hits(tree.metric, q, points, lo, hi);
    if a < b {
        lemma_scan_hits(tree, q, lo, hi, a, b - 1);
        let rest = window_hits(tree.metric, q, tree.points.subrange(a, b - 1), lo, hi);
        assert(points.drop_last() =~= tree.points.subrange(a, b - 1));
        assert(points.last() == tree.points[b - 1]);
        assert forall|i: int| 0 <= i < hits.len() implies drawn(
            tree,
            q,
            lo,
            hi,
            a,
            b,
            #[trigger] hits[i],
        ) by {
            if i < rest.len() {
                assert(hits[i] == rest[i]);
                assert(drawn(tree, q, lo, hi, a, b - 1, rest[i]));
            }
        }
        if points_differ(tree.points) {
            assert forall|i: int, j: int| 0 <= i < j < hits.len() implies (#[trigger] hits[i]).1
                != (#[trigger] hits[j]).1 by {
                assert(hits[i] == rest[i]);
                assert(drawn(tree, q, lo, hi, a, b - 1, rest[i]));
                if j < rest.len() {
                    assert(hits[j] == rest[j]);
                }
            }
        }
    }
}

pub proof fn lemma_all_hits<T, D: Distance<T>>(
    tree: Tree<T, D>,
    q: Seq<T>,
    lo: u64,
    hi: u64,
    ef: usize,
    ps: Seq<Piece>,
    b: int,
)
    requires
        tree.points.len() <= 0x1_0000_0000,
        0 <= b <= tree.points.len(),
        forall|i: int| 0 <= i < ps.len() ==> 0 <= (#[trigger] ps[i]).start < ps[i].end <= b,
        forall|i: int, j: int|
            0 <= i < j < ps.len() ==> (#[trigger] ps[i]).end <= (#[trigger] ps[j]).start,
        forall|i: int, p: int|
            0 <= i < ps.len() && (#[trigger] ps[i]).whole && ps[i].start <= p < ps[i].end ==> lo
                <= #[trigger] keys_of(tree.points)[p] <= hi,
    ensures
        ({
            let hits = tree.all_hits(q, lo, hi, ef, ps);
            &&& forall|i: int|
                0 <= i < hits.len() ==> drawn(tree, q, lo, hi, 0, b, #[trigger] hits[i])
            &&& points_differ(tree.points) ==> numbers_differ(hits)
        }),
    decreases ps.len(),
{
    if ps.len() > 0 {
        let t = ps.drop_last();
        let last = ps[ps.len() - 1];
        assert forall|i: int| 0 <= i < t.len() implies 0 <= (#[trigger] t[i]).start < t[i].end
            <= last.start by {
            assert(t[i] == ps[i]);
            assert(ps[i].end <= ps[ps.len() - 1].start);
        }
        assert forall|i: int, j: int| 0 <= i < j < t.len() implies (#[trigger] t[i]).end <= (
        #[trigger] t[j]).start by {
            assert(t[i] == ps[i] && t[j] == ps[j]);
        }
        assert forall|i: int, p: int|
            0 <= i < t.len() && (#[trigger] t[i]).whole && t[i].start <= p < t[i].end implies lo
            <= #[trigger] keys_of(tree.points)[p] <= hi by {
            assert(t[i] == ps[i]);
        }
        lemma_all_hits(tree, q, lo, hi, ef, t, last.start);
        if last.whole {
            lemma_slice_hits(tree, q, lo, hi, ef, last.start, last.end);
        } else {
            lemma_scan_hits(tree, q, lo, hi, last.start, last.end);
        }
        let first = tree.all_hits(q, lo, hi, ef, t);
        let later = tree.piece_hits(q, lo, hi, ef, last);
        let hits = tree.all_hits(q, lo, hi, ef, ps);
        assert(hits == first + later);
        assert forall|i: int| 0 <= i < hits.len() implies drawn(
            tree,
            q,
            lo,
            hi,
            0,
            b,
            #[trigger] hits[i],
        ) by {
            if i < first.len() {
                assert(drawn(tree, q, lo, hi, 0, last.start, first[i]));
            } else {
                assert(drawn(
                    tree,
                    q,
                    lo,
                    hi,
                    last.start,
                    last.end,
                    later[i - first.len()],
                ));
            }
        }
        if points_differ(tree.points) {
            assert forall|i: int, j: int| 0 <= i < j < hits.len() implies (#[trigger] hits[i]).1
                != (#[trigger] hits[j]).1 by {
                if j < first.len() {
                    assert(hits[i] == first[i] && hits[j] == first[j]);
                } else if i >= first.len() {
                    assert(hits[i] == later[i - first.len()]);
                    assert(hits[j] == later[j - first.len()]);
                } else {
                    assert(drawn(tree, q, lo, hi, 0, last.start, first[i]));
                    assert(drawn(
                        tree,
                        q,
                        lo,
                        hi,
                        last.start,
                        last.end,
                        later[j - first.len()],
                    ));
                }
            }
        }
    }
}

pub proof fn lemma_deduped(hits: Seq<Hit>)
    ensures
        deduped(hits).len() <= hits.len(),
        hits.len() > 0 ==> deduped(hits).len() > 0 && deduped(hits).last().0 <= hits.last().0
            || !ascending(by_distance(hits)),
        forall|i: int|
            0 <= i < deduped(hits).len() ==> hits.contains(#[trigger] deduped(hits)[i]),
        ascending(by_distance(hits)) ==> ascending(by_distance(deduped(hits))),
        forall|i: int|
            0 < i < deduped(hits).len() ==> deduped(hits)[i - 1].1 != (#[trigger] deduped(hits)[i]).1,
        numbers_differ(hits) ==> deduped(hits) == hits,
    decreases hits.len(),
{
    if hits.len() > 0 {
        let t = hits.drop_last();
        lemma_deduped(t);
        let d = deduped(t);
        let e = deduped(hits);
        assert forall|i: int| 0 <= i < e.len() implies hits.contains(#[trigger] e[i]) by {
            if i < d.len() {
                assert(e[i] == d[i]);
                assert(t.contains(d[i]));
                let j = choose|j: int| 0 <= j < t.len() && t[j] == d[i];
                assert(hits[j] == e[i]);
            } else {
                assert(hits[hits.len() - 1] == e[i]);
            }
        }
        assert forall|i: int| 0 < i < e.len() implies e[i - 1].1 != (#[trigger] e[i]).1 by {
            if i < d.len() {
                assert(d[i - 1].1 != d[i].1);
            }
        }
        if ascending(by_distance(hits)) {
            assert forall|i: int, j: int| 0 <= i <= j < by_distance(t).len() implies (
            #[trigger] by_distance(t)[i]).0 <= (#[trigger] by_distance(t)[j]).0 by {
                assert(by_distance(hits)[i].0 <= by_distance(hits)[j].0);
            }
            assert(d.len() > 0 ==> d.last().0 <= hits.last().0) by {
                if t.len() > 0 {
                    assert(by_distance(hits)[t.len() - 1].0 <= by_distance(hits)[t.len() as int].0);
                }
            }
            assert forall|i: int, j: int| 0 <= i <= j < by_distance(e).len() implies (
            #[trigger] by_distance(e)[i]).0 <= (#[trigger] by_distance(e)[j]).0 by {
                if j < d.len() {
                    assert(by_distance(d)[i].0 <= by_distance(d)[j].0);
                } else if i < d.len() {
                    assert(by_distance(d)[i].0 <= by_distance(d)[d.len() - 1].0);
                }
            }
        }
        if numbers_differ(hits) {
            assert forall|i: int, j: int| 0 <= i < j < t.len() implies (#[trigger] t[i]).1 != (
            #[trigger] t[j]).1 by {
                assert(t[i] == hits[i] && t[j] == hits[j]);
            }
            if d.len() > 0 {
                assert(t[t.len() - 1] == hits[t.len() - 1]);
                assert(hits[t.len() - 1].1 != hits[hits.len() - 1].1);
            }
            assert(e =~= hits);
        }
    }
}

/// What a query returns: no more than `k` hits by ascending distance, each of
/// them the hit of a point whose key lies in the window. If no two points have
/// the same number, no number is returned twice.
pub proof fn lemma_answer<T, D: Distance<T>>(
    tree: Tree<T, D>,
    q: Seq<T>,
    k: nat,
    lo: u64,
    hi: u64,
    ef: usize,
)
    requires
        keys_ascend(keys_of(tree.points)),
        tree.points.len() <= 0x1_0000_0000,
    ensures
        ({
            let r = tree.answer(q, k, lo, hi, ef);
            &&& r.len() <= k
            &&& forall|i: int, j: int|
                0 <= i <= j < r.len() ==> (#[trigger] r[i]).0 <= (#[trigger] r[j]).0
            &&& forall|i: int|
                0 <= i < r.len() ==> lo <= (#[trigger] r[i]).2 <= hi && drawn(
                    tree,
                    q,
                    lo,
                    hi,
                    0,
                    tree.points.len() as int,
                    r[i],
                )
            &&& points_differ(tree.points) ==> numbers_differ(r)
        }),
{
    let n = tree.points.len() as int;
    let keys = keys_of(tree.points);
    let ps = pieces(keys, tree.leaf, lo, hi, 0, n);
    lemma_pieces(keys, tree.leaf, lo, hi, 0, n);
    lemma_all_hits(tree, q, lo, hi, ef, ps, n);
    let all = tree.query_hits(q, lo, hi, ef);
    let keyed = by_distance(all);
    lemma_stable_sort(keyed);
    let order = stable_sort(keyed);
    let sorted = payloads(order);
    lemma_deduped(sorted);
    assert forall|i: int| 0 <= i < sorted.len() implies all.contains(#[trigger] sorted[i])
        && order[i].0 == sorted[i].0 by {
        assert(order.contains(order[i]));
        lemma_stable_sort_contains(keyed, order[i]);
        let j = choose|j: int| 0 <= j < keyed.len() && keyed[j] == order[i];
        assert(all[j] == sorted[i]);
    }
    assert(ascending(by_distance(sorted))) by {
        assert forall|i: int, j: int| 0 <= i <= j < sorted.len() implies (
        #[trigger] by_distance(sorted)[i]).0 <= (#[trigger] by_distance(sorted)[j]).0 by {
            assert(order[i].0 <= order[j].0);
            assert(all.contains(sorted[i]) && all.contains(sorted[j]));
        }
    }
    let d = deduped(sorted);
    let r = tree.answer(q, k, lo, hi, ef);
    assert forall|i: int| 0 <= i < r.len() implies lo <= (#[trigger] r[i]).2 <= hi && drawn(
        tree,
        q,
        lo,
        hi,
        0,
        n,
        r[i],
    ) by {
        assert(r[i] == d[i]);
        assert(sorted.contains(d[i]));
        let j = choose|j: int| 0 <= j < sorted.len() && sorted[j] == d[i];
        assert(all.contains(sorted[j]));
        let x = choose|x: int| 0 <= x < all.len() && all[x] == d[i];
        assert(drawn(tree, q, lo, hi, 0, n, all[x]));
    }
    assert forall|i: int, j: int| 0 <= i <= j < r.len() implies (#[trigger] r[i]).0 <= (
    #[trigger] r[j]).0 by {
        assert(by_distance(d)[i].0 <= by_distance(d)[j].0);
    }
    if points_differ(tree.points) {
        assert(numbers_differ(all));
        assert(keyed.no_duplicates()) by {
            assert forall|i: int, j: int|
                0 <= i < keyed.len() && 0 <= j < keyed.len() && i != j implies keyed[i] != keyed[j] by {
                if i < j {
                    assert(all[i].1 != all[j].1);
                } else {
                    assert(all[j].1 != all[i].1);
                }
            }
        }
        keyed.lemma_multiset_has_no_duplicates();
        order.lemma_multiset_has_no_duplicates_conv();
        assert(numbers_differ(sorted)) by {
            assert forall|i: int, j: int| 0 <= i < j < sorted.len() implies (#[trigger] sorted[i]).1
                != (#[trigger] sorted[j]).1 by {
                assert(all.contains(sorted[i]) && all.contains(sorted[j]));
                let x = choose|x: int| 0 <= x < all.len() && all[x] == sorted[i];
                let y = choose|y: int| 0 <= y < all.len() && all[y] == sorted[j];
                assert(order[i] != order[j]);
                if x < y {
                    assert(all[x].1 != all[y].1);
                } else if y < x {
                    assert(all[y].1 != all[x].1);
                }
            }
        }
        assert forall|i: int, j: int| 0 <= i < j < r.len() implies (#[trigger] r[i]).1 != (
        #[trigger] r[j]).1 by {
            assert(r[i] == sorted[i] && r[j] == sorted[j]);
        }
    }
}

/// `j` is `i` or a node under it.
spec fn under(i: int, j: int) -> bool
    decreases j,
{
    j == i || (j > i && i > 0 && under(i, j / 2))
}

proof fn lemma_under(i: int, j: int)
    requires
        i > 0,
    ensures
        under(i, j) ==> j >= i,
        under(2 * i, j) ==> under(i, j),
        under(2 * i + 1, j) ==> under(i, j),
        !(under(2 * i, j) && under(2 * i + 1, j)),
        !under(2 * i, i) && !under(2 * i + 1, i),
    decreases j,
{
    if j > i {
        lemma_under(i, j / 2);
        assert(under(i, i));
        if j == 2 * i || j == 2 * i + 1 {
            assert(j / 2 == i);
            assert(under(i, j));
        }
    }
}

impl<T: Copy, D: Distance<T>> Graph<T, D> {
    /// The graph over a slice of the points.
    spec fn covers(&self, tree: Tree<T, D>, a: int, b: int) -> bool {
        let points = tree.points.subrange(a, b);
        let vecs = vecs_of(points);
        &&& self.wf()
        &&& rows(self.vectors@) == vecs
        &&& self.global_ids@ == gids_of(points)
        &&& self.keys@ == keys_of(points)
        &&& self.metric == tree.metric
        &&& rows(self.neighbors@) == grown(
            tree.metric,
            vecs,
            tree.m,
            tree.ef_construction,
            vecs.len(),
        )
    }
}

/// The node at `idx` holds the graph over the slice from `a` to `b`, and so do
/// the nodes under it for its halves.
spec fn planted<T: Copy, D: Distance<T>>(
    tree: Tree<T, D>,
    nodes: Seq<Option<Graph<T, D>>>,
    idx: int,
    a: int,
    b: int,
) -> bool
    decreases b - a,
{
    a < b ==> {
        &&& 0 < idx < nodes.len()
        &&& nodes[idx] is Some
        &&& nodes[idx]->0.covers(tree, a, b)
        &&& b - a <= tree.leaf || b - a <= 1 || {
            &&& planted(tree, nodes, 2 * idx, a, middle(a, b))
            &&& planted(tree, nodes, 2 * idx + 1, middle(a, b), b)
        }
    }
}

proof fn lemma_planted_frame<T: Copy, D: Distance<T>>(
    tree: Tree<T, D>,
    before: Seq<Option<Graph<T, D>>>,
    after: Seq<Option<Graph<T, D>>>,
    idx: int,
    a: int,
    b: int,
)
    requires
        planted(tree, before, idx, a, b),
        before.len() == after.len(),
        forall|j: int| 0 <= j < before.len() && under(idx, j) ==> after[j] == before[j],
        idx > 0,
    ensures
        planted(tree, after, idx, a, b),
    decreases b - a,
{
    if a < b {
        assert(under(idx, idx));
        if b - a > tree.leaf && b - a > 1 {
            assert forall|j: int| 0 <= j < before.len() && under(2 * idx, j) implies after[j]
                == before[j] by {
                lemma_under(idx, j);
            }
            assert forall|j: int| 0 <= j < before.len() && under(2 * idx + 1, j) implies after[j]
                == before[j] by {
                lemma_under(idx, j);
            }
            lemma_planted_frame(tree, before, after, 2 * idx, a, middle(a, b));
            lemma_planted_frame(tree, before, after, 2 * idx + 1, middle(a, b), b);
        }
    }
}

/// A slice that is longer than a leaf is not at the bottom of the tree.
proof fn lemma_depth(n: nat, leaf: nat, bottom: nat, depth: nat, len: nat)
    requires
        leaf >= 1,
        n <= leaf * pow2(bottom),
        len > leaf,
        len * pow2(depth) < n + pow2(depth),
    ensures
        depth < bottom,
{
    let p = pow2(depth);
    let q = pow2(bottom);
    lemma_pow2_pos(depth);
    assert(leaf * p < n) by (nonlinear_arith)
        requires
            len > leaf,
            len * p < n + p,
            p > 0,
    ;
    assert(p < q) by (nonlinear_arith)
        requires
            leaf * p < leaf * q,
            leaf >= 1,
    ;
    if bottom < depth {
        lemma_pow2_strictly_increases(bottom, depth);
    }
}

/// The halves of a slice are no longer than the level below allows.
proof fn lemma_halves(n: nat, depth: nat, len: nat)
    requires
        len * pow2(depth) < n + pow2(depth),
    ensures
        (len / 2) * pow2(depth + 1) < n + pow2(depth + 1),
        ((len - len / 2) as nat) * pow2(depth + 1) < n + pow2(depth + 1),
        pow2(depth + 1) == 2 * pow2(depth),
{
    lemma_pow2_unfold(depth + 1);
    lemma_pow2_pos(depth);
    let p = pow2(depth);
    let half = len / 2;
    let other = (len - len / 2) as nat;
    assert(half * (2 * p) < n + 2 * p) by (nonlinear_arith)
        requires
            len * p < n + p,
            2 * half <= len,
            p > 0,
    ;
    assert(other * (2 * p) < n + 2 * p) by (nonlinear_arith)
        requires
            len * p < n + p,
            2 * other <= len + 1,
            p > 0,
    ;
}

/// The bytes that graphs use.
pub open spec fn held_by_graphs<T, D>(nodes: Seq<Option<Graph<T, D>>>) -> nat
    decreases nodes.len(),
{
    if nodes.len() == 0 {
        0
    } else {
        held_by_graphs(nodes.drop_last()) + match nodes.last() {
            Some(g) => held_by_graph(g),
            None => 0,
        }
    }
}

/// `rooms` can be what a node's graph has room for. A node without a graph has
/// none.
pub open spec fn node_rooms_fit<T, D>(node: Option<Graph<T, D>>, rooms: Seq<usize>) -> bool {
    match node {
        Some(g) => graph_rooms_fit(g, rooms),
        None => rooms.len() == 0,
    }
}

/// `sets` can be what the nodes' graphs have room for.
pub open spec fn tree_rooms_fit<T, D>(
    nodes: Seq<Option<Graph<T, D>>>,
    sets: Seq<Seq<usize>>,
) -> bool {
    &&& sets.len() == nodes.len()
    &&& forall|i: int| 0 <= i < nodes.len() ==> node_rooms_fit(nodes[i], #[trigger] sets[i])
}

proof fn lemma_held_by_graphs<T, D>(nodes: Seq<Option<Graph<T, D>>>, sets: Seq<Seq<usize>>)
    requires
        tree_rooms_fit(nodes, sets),
    ensures
        held_by_graphs(nodes) <= held_by_all(sets, 0),
    decreases nodes.len(),
{
    if nodes.len() > 0 {
        let t = nodes.drop_last();
        let few = sets.drop_last();
        assert forall|i: int| 0 <= i < t.len() implies node_rooms_fit(t[i], #[trigger] few[i]) by {
            assert(few[i] == sets[i]);
        }
        lemma_held_by_graphs(t, few);
        assert(node_rooms_fit(nodes[nodes.len() - 1], sets[nodes.len() - 1]));
        match nodes.last() {
            Some(g) => {
                lemma_held_by_graph(g, sets.last());
            },
            None => {},
        }
    }
}

/// `rooms` can be what the graphs of an index, and what the vectors of its points
/// have room for.
pub open spec fn index_rooms_fit<T, D>(
    nodes: Seq<Option<Graph<T, D>>>,
    points: Seq<(u32, u64, Seq<T>)>,
    rooms: (Seq<Seq<usize>>, Seq<usize>),
) -> bool {
    tree_rooms_fit(nodes, rooms.0) && rooms_fit(vecs_of(points), rooms.1)
}

/// The bytes for the rooms of an index, or the greatest number where they do not
/// fit: four for each element that graphs and points have room for, and eight for
/// each point.
pub fn index_bytes_for(sets: &[Vec<usize>], points: &[usize]) -> (r: usize)
    ensures
        r == clamped(held_by_all(rows(sets@), 0) + held(points@, 8)),
{
    bytes_for_all(sets, 0).saturating_add(bytes_for(points, 8))
}

/// The bytes that points use.
pub open spec fn held_by_points<T>(points: Seq<(u32, u64, Seq<T>)>) -> nat
    decreases points.len(),
{
    if points.len() == 0 {
        0
    } else {
        held_by_points(points.drop_last()) + 4 * points.last().2.len() + 8
    }
}

proof fn lemma_held_by_points<T>(points: Seq<(u32, u64, Seq<T>)>)
    ensures
        held_by_points(points) == 4 * cells(vecs_of(points)) + 8 * points.len(),
    decreases points.len(),
{
    if points.len() > 0 {
        lemma_held_by_points(points.drop_last());
        assert(vecs_of(points).drop_last() =~= vecs_of(points.drop_last()));
    }
}

/// Range-filtered nearest-neighbour index.
pub struct SegmentRangeIndex<T, D> {
    points_sorted: Vec<Point<T>>,
    /// The tree; the root is at 1, and the halves of `i` at `2 * i` and
    /// `2 * i + 1`.
    nodes: Vec<Option<Graph<T, D>>>,
    leaf_size: usize,
    m: usize,
    ef_construction: usize,
    metric: D,
    range_min: u64,
    range_max: u64,
}

impl<T: Copy, D: Distance<T> + Copy> SegmentRangeIndex<T, D> {
    /// How the index was built and what it was built over.
    pub closed spec fn tree(&self) -> Tree<T, D> {
        Tree {
            points: points_view(self.points_sorted@),
            leaf: self.leaf_size as nat,
            m: self.m as nat,
            ef_construction: self.ef_construction,
            metric: self.metric,
        }
    }

    /// The points are sorted, and every slice of the tree has its graph.
    pub closed spec fn wf(&self) -> bool {
        let points = points_view(self.points_sorted@);
        &&& keys_ascend(keys_of(points))
        &&& self.leaf_size >= 1
        &&& points.len() <= 0x1_0000_0000
        &&& planted(self.tree(), self.nodes@, 1, 0, points.len() as int)
        &&& self.range_min == if points.len() == 0 {
            ZERO_KEY
        } else {
            points[0].1
        }
        &&& self.range_max == if points.len() == 0 {
            ZERO_KEY
        } else {
            points.last().1
        }
    }

    /// Builds the index.
    pub fn build(
        data: Vec<Point<T>>,
        leaf_size: usize,
        m: usize,
        ef_construction: usize,
        metric: D,
    ) -> (r: Self)
        requires
            leaf_size >= 1,
            data@.len() + leaf_size <= usize::MAX,
            data@.len() <= 0x1_0000_0000,
            4 * data@.len() <= usize::MAX,
        ensures
            r.wf(),
            r.tree() == (Tree {
                points: sorted_points(points_view(data@)),
                leaf: leaf_size as nat,
                m: m as nat,
                ef_construction,
                metric,
            }),
    {
        let n: usize = data.len();
        let ghost given = points_view(data@);
        let mut keys: Vec<u64> = Vec::new();
        let mut i: usize = 0;
        while i < n
            invariant
                i <= n,
                n == data@.len(),
                given == points_view(data@),
                keys@ =~= keys_of(given).take(i as int),
            decreases n - i,
        {
            keys.push(data[i].1);
            i += 1;
        }
        assert(keys_of(given).take(n as int) =~= keys_of(given));
        let order = sort_order(keys.as_slice());
        proof {
            lemma_sort_order(keys@, order@, given);
        }
        let mut points_sorted: Vec<Point<T>> = Vec::new();
        let mut j: usize = 0;
        while j < n
            invariant
                j <= n,
                n == data@.len(),
                n == order@.len(),
                given == points_view(data@),
                keys@ == keys_of(given),
                sorted_points(given).len() == n,
                forall|x: int| 0 <= x < n ==> (#[trigger] order@[x]) < n,
                forall|x: int|
                    0 <= x < n ==> sorted_points(given)[x] == given[(#[trigger] order@[x]) as int],
                points_view(points_sorted@) =~= sorted_points(given).take(j as int),
            decreases n - j,
        {
            let at: usize = order[j];
            assert(order@[j as int] < n);
            let p: &Point<T> = &data[at];
            let copy = (p.0, p.1, copy_row(p.2.as_slice()));
            let ghost done = points_view(points_sorted@);
            points_sorted.push(copy);
            proof {
                assert(points_view(points_sorted@) =~= done.push(point_view(copy)));
                assert(point_view(copy) == given[at as int]);
            }
            j += 1;
        }
        let ghost points = points_view(points_sorted@);
        proof {
            assert(sorted_points(given).take(n as int) =~= sorted_points(given));
            lemma_stable_sort(keyed_by(keys_of(given), given));
            let sorted = stable_sort(keyed_by(keys_of(given), given));
            assert forall|x: int, y: int| 0 <= x <= y < n implies keys_of(points)[x] <= keys_of(
                points,
            )[y] by {
                assert(sorted[x] == (keys@[order@[x] as int], given[order@[x] as int]));
                assert(sorted[y] == (keys@[order@[y] as int], given[order@[y] as int]));
            }
        }
        let range_min: u64 = if n == 0 {
            ZERO_KEY
        } else {
            points_sorted[0].1
        };
        let range_max: u64 = if n == 0 {
            ZERO_KEY
        } else {
            points_sorted[n - 1].1
        };
        let leaves: usize = (n + leaf_size - 1) / leaf_size;
        assert(leaves * leaf_size >= n && leaves <= n) by (nonlinear_arith)
            requires
                leaf_size >= 1,
                leaves == (n + leaf_size - 1) / (leaf_size as int),
        ;
        let mut tree_size: usize = 1;
        let ghost mut bottom: nat = 0;
        proof {
            vstd::arithmetic::power2::lemma2_to64();
        }
        while tree_size < leaves
            invariant
                tree_size == pow2(bottom),
                tree_size >= 1,
                tree_size == 1 || tree_size < 2 * leaves,
                leaves <= n,
                4 * n <= usize::MAX,
            decreases (if tree_size < leaves {
                leaves - tree_size
            } else {
                0
            }),
        {
            proof {
                lemma_pow2_unfold(bottom + 1);
                bottom = bottom + 1;
            }
            tree_size = tree_size * 2;
        }
        let total: usize = if n == 0 {
            2
        } else {
            2 * tree_size
        };
        let mut nodes: Vec<Option<Graph<T, D>>> = Vec::new();
        let mut k: usize = 0;
        while k < total
            invariant
                k <= total,
                nodes@.len() == k,
            decreases total - k,
        {
            nodes.push(None);
            k += 1;
        }
        let ghost tree = Tree {
            points,
            leaf: leaf_size as nat,
            m: m as nat,
            ef_construction,
            metric,
        };
        proof {
            lemma_pow2_unfold(bottom + 1);
            assert(n <= leaf_size * pow2(bottom)) by (nonlinear_arith)
                requires
                    leaves * leaf_size >= n,
                    leaves <= pow2(bottom),
            ;
            assert(n * pow2(0) < n + pow2(0));
            assert(pow2(1) == 2);
        }
        build_node(
            &points_sorted,
            &mut nodes,
            leaf_size,
            m,
            ef_construction,
            metric,
            1,
            0,
            n,
            Ghost(tree),
            Ghost(0),
            Ghost(bottom),
        );
        SegmentRangeIndex {
            points_sorted,
            nodes,
            leaf_size,
            m,
            ef_construction,
            metric,
            range_min,
            range_max,
        }
    }

    /// Searches for the `k` points nearest to `q` among those whose key lies
    /// between `lo` and `hi`.
    pub fn search(&self, q: &[T], k: usize, lo: u64, hi: u64, ef: usize) -> (r: Vec<Hit>)
        requires
            self.wf(),
        ensures
            r@ == self.tree().answer(q@, k as nat, lo, hi, ef),
            forall|i: int| 0 <= i < r@.len() ==> lo <= (#[trigger] r@[i]).2 <= hi,
    {
        proof {
            lemma_answer(self.tree(), q@, k as nat, lo, hi, ef);
        }
        let mut hits: Vec<Hit> = Vec::new();
        self.query(1, 0, self.points_sorted.len(), lo, hi, q, ef, &mut hits);
        let ghost all = self.tree().query_hits(q@, lo, hi, ef);
        assert(hits@ =~= all);
        let sorted = nearest_hits(hits.as_slice(), hits.len());
        proof {
            lemma_stable_sort(by_distance(all));
            assert(sorted@ == payloads(stable_sort(by_distance(all))));
        }
        let n: usize = sorted.len();
        let mut r: Vec<Hit> = Vec::new();
        let mut i: usize = 0;
        assert(sorted@.take(0) =~= Seq::empty());
        while i < n
            invariant
                i <= n,
                n == sorted@.len(),
                r@ == deduped(sorted@.take(i as int)),
            decreases n - i,
        {
            proof {
                assert(sorted@.take(i + 1).drop_last() =~= sorted@.take(i as int));
                assert(sorted@.take(i + 1).last() == sorted@[i as int]);
            }
            let len: usize = r.len();
            if !(len > 0 && r[len - 1].1 == sorted[i].1) {
                r.push(sorted[i]);
            }
            i += 1;
        }
        assert(sorted@.take(n as int) =~= sorted@);
        r.truncate(k);
        r
    }

    fn query(
        &self,
        idx: usize,
        node_lo: usize,
        node_hi: usize,
        lo: u64,
        hi: u64,
        q: &[T],
        ef: usize,
        out: &mut Vec<Hit>,
    )
        requires
            self.wf(),
            node_lo <= node_hi <= self.points_sorted@.len(),
            planted(self.tree(), self.nodes@, idx as int, node_lo as int, node_hi as int),
        ensures
            final(out)@ == old(out)@ + self.tree().all_hits(
                q@,
                lo,
                hi,
                ef,
                pieces(
                    keys_of(self.tree().points),
                    self.leaf_size as nat,
                    lo,
                    hi,
                    node_lo as int,
                    node_hi as int,
                ),
            ),
        decreases node_hi - node_lo,
    {
        let ghost tree = self.tree();
        let ghost keys = keys_of(tree.points);
        let ghost ps = pieces(
            keys,
            self.leaf_size as nat,
            lo,
            hi,
            node_lo as int,
            node_hi as int,
        );
        if node_lo >= node_hi {
            assert(out@ =~= old(out)@ + tree.all_hits(q@, lo, hi, ef, ps));
            return ;
        }
        let key_lo: u64 = self.points_sorted[node_lo].1;
        let key_hi: u64 = self.points_sorted[node_hi - 1].1;
        if key_hi < lo || key_lo > hi {
            assert(out@ =~= old(out)@ + tree.all_hits(q@, lo, hi, ef, ps));
            return ;
        }
        if key_lo >= lo && key_hi <= hi {
            match &self.nodes[idx] {
                Some(g) => {
                    let mut found = g.search(q, ef);
                    proof {
                        let p = Piece { start: node_lo as int, end: node_hi as int, whole: true };
                        assert(g.covers(tree, node_lo as int, node_hi as int));
                        assert(found@ == tree.piece_hits(q@, lo, hi, ef, p));
                        assert(ps.drop_last() =~= Seq::empty());
                        assert(ps.last() == p);
                        assert(tree.all_hits(q@, lo, hi, ef, ps.drop_last()) =~= Seq::empty());
                        assert(tree.all_hits(q@, lo, hi, ef, ps) =~= found@);
                    }
                    out.append(&mut found);
                },
                None => {},
            }
            return ;
        }
        let len: usize = node_hi - node_lo;
        if len <= self.leaf_size {
            proof {
                let p = Piece { start: node_lo as int, end: node_hi as int, whole: false };
                assert(ps.drop_last() =~= Seq::empty());
                assert(ps.last() == p);
                assert(tree.all_hits(q@, lo, hi, ef, ps.drop_last()) =~= Seq::empty());
                assert(tree.all_hits(q@, lo, hi, ef, ps) =~= tree.piece_hits(q@, lo, hi, ef, p));
            }
            scan_window(
                &self.metric,
                q,
                self.points_sorted.as_slice(),
                node_lo,
                node_hi,
                lo,
                hi,
                out,
            );
            return ;
        }
        let mid: usize = node_lo + len / 2;
        let total: usize = self.nodes.len();
        assert(planted(tree, self.nodes@, 2 * idx + 1, mid as int, node_hi as int));
        assert(2 * idx + 1 < total);
        self.query(idx * 2, node_lo, mid, lo, hi, q, ef, out);
        self.query(idx * 2 + 1, mid, node_hi, lo, hi, q, ef, out);
        proof {
            let l = pieces(keys, self.leaf_size as nat, lo, hi, node_lo as int, mid as int);
            let r = pieces(keys, self.leaf_size as nat, lo, hi, mid as int, node_hi as int);
            lemma_all_hits_add(tree, q@, lo, hi, ef, l, r);
            assert(ps == l + r);
            assert(out@ =~= old(out)@ + tree.all_hits(q@, lo, hi, ef, ps));
        }
    }

    /// The bytes that the graphs hold, and for each point eight and four for
    /// each component that there is room for; or the greatest number where
    /// these do not fit. How much room there is beyond what is used, the
    /// allocator decides.
    pub fn memory_bytes(&self) -> (r: usize)
        ensures
            r >= clamped(held_by_graphs(self.graphs()) + held_by_points(self.tree().points)),
            exists|rooms: (Seq<Seq<usize>>, Seq<usize>)| #[trigger]
                index_rooms_fit(self.graphs(), self.tree().points, rooms) && r == clamped(
                    held_by_all(rooms.0, 0) + held(rooms.1, 8),
                ),
    {
        let n: usize = self.nodes.len();
        let mut sets: Vec<Vec<usize>> = Vec::new();
        let mut i: usize = 0;
        while i < n
            invariant
                i <= n,
                n == self.nodes@.len(),
                sets@.len() == i,
                forall|j: int|
                    0 <= j < i ==> node_rooms_fit(self.nodes@[j], (#[trigger] sets@[j])@),
            decreases n - i,
        {
            let rooms: Vec<usize> = match &self.nodes[i] {
                Some(g) => g.rooms(),
                None => Vec::new(),
            };
            assert(node_rooms_fit(self.nodes@[i as int], rooms@));
            sets.push(rooms);
            i += 1;
        }
        let count: usize = self.points_sorted.len();
        let ghost points = self.tree().points;
        let mut rooms: Vec<usize> = Vec::new();
        let mut j: usize = 0;
        while j < count
            invariant
                j <= count,
                count == self.points_sorted@.len(),
                points == points_view(self.points_sorted@),
                rooms@.len() == j,
                forall|x: int|
                    0 <= x < j ==> fits::<T>(vecs_of(points)[x].len(), #[trigger] rooms@[x]),
            decreases count - j,
        {
            rooms.push(room(&self.points_sorted[j].2));
            j += 1;
        }
        proof {
            let all = rows(sets@);
            assert forall|x: int| 0 <= x < n implies node_rooms_fit(
                self.graphs()[x],
                #[trigger] all[x],
            ) by {
                assert(all[x] == sets@[x]@);
            }
            assert(tree_rooms_fit(self.graphs(), all));
            assert(index_rooms_fit(self.graphs(), points, (all, rooms@)));
            lemma_held_by_graphs(self.graphs(), all);
            lemma_rooms_fit(vecs_of(points), rooms@);
            lemma_held_by_points(points);
        }
        index_bytes_for(sets.as_slice(), rooms.as_slice())
    }

    /// The graphs of the tree's nodes.
    pub closed spec fn graphs(&self) -> Seq<Option<Graph<T, D>>> {
        self.nodes@
    }

    /// The number of points.
    pub fn len(&self) -> (n: usize)
        ensures
            n == self.tree().points.len(),
    {
        self.points_sorted.len()
    }

    /// Whether there are no points.
    pub fn is_empty(&self) -> (b: bool)
        ensures
            b == (self.tree().points.len() == 0),
    {
        self.points_sorted.len() == 0
    }

    /// The smallest and the greatest key, or twice the key of zero where there
    /// are no points.
    pub fn range(&self) -> (r: (u64, u64))
        requires
            self.wf(),
        ensures
            r == if self.tree().points.len() == 0 {
                (ZERO_KEY, ZERO_KEY)
            } else {
                (self.tree().points[0].1, self.tree().points.last().1)
            },
    {
        (self.range_min, self.range_max)
    }
}

/// Builds the graph of node `idx`, which owns the slice from `lo` to `hi`, and
/// those of the nodes under it.
fn build_node<T: Copy, D: Distance<T> + Copy>(
    points: &Vec<Point<T>>,
    nodes: &mut Vec<Option<Graph<T, D>>>,
    leaf_size: usize,
    m: usize,
    ef_construction: usize,
    metric: D,
    idx: usize,
    lo: usize,
    hi: usize,
    Ghost(tree): Ghost<Tree<T, D>>,
    Ghost(depth): Ghost<nat>,
    Ghost(bottom): Ghost<nat>,
)
    requires
        tree == (Tree {
            points: points_view(points@),
            leaf: leaf_size as nat,
            m: m as nat,
            ef_construction,
            metric,
        }),
        leaf_size >= 1,
        points@.len() <= 0x1_0000_0000,
        lo <= hi <= points@.len(),
        0 < idx < pow2(depth + 1),
        depth <= bottom,
        (hi - lo) as nat * pow2(depth) < points@.len() + pow2(depth),
        points@.len() <= leaf_size * pow2(bottom),
        old(nodes)@.len() >= pow2(bottom + 1),
    ensures
        final(nodes)@.len() == old(nodes)@.len(),
        planted(tree, final(nodes)@, idx as int, lo as int, hi as int),
        forall|j: int|
            0 <= j < old(nodes)@.len() && !under(idx as int, j) ==> (#[trigger] final(nodes)@[j])
                == old(nodes)@[j],
    decreases hi - lo,
{
    if lo >= hi {
        return ;
    }
    let len: usize = hi - lo;
    let ghost slice = tree.points.subrange(lo as int, hi as int);
    let mut vectors: Vec<Vec<T>> = Vec::new();
    let mut gids: Vec<u32> = Vec::new();
    let mut keys: Vec<u64> = Vec::new();
    let mut i: usize = lo;
    while i < hi
        invariant
            lo <= i <= hi,
            hi <= points@.len(),
            tree.points == points_view(points@),
            slice == tree.points.subrange(lo as int, hi as int),
            rows(vectors@) =~= vecs_of(slice).take(i - lo),
            gids@ =~= gids_of(slice).take(i - lo),
            keys@ =~= keys_of(slice).take(i - lo),
        decreases hi - i,
    {
        let p: &Point<T> = &points[i];
        let v = copy_row(p.2.as_slice());
        let ghost done = rows(vectors@);
        assert(slice[i - lo] == point_view(*p));
        vectors.push(v);
        assert(rows(vectors@) =~= done.push(v@));
        gids.push(p.0);
        keys.push(p.1);
        i += 1;
    }
    proof {
        assert(vecs_of(slice).take(len as int) =~= vecs_of(slice));
        assert(gids_of(slice).take(len as int) =~= gids_of(slice));
        assert(keys_of(slice).take(len as int) =~= keys_of(slice));
    }
    assert(vectors@.len() == rows(vectors@).len());
    let g = Graph::build(vectors, gids, keys, m, ef_construction, metric);
    assert(g.covers(tree, lo as int, hi as int));
    proof {
        if depth < bottom {
            lemma_pow2_strictly_increases(depth + 1, bottom + 1);
        }
    }
    nodes.set(idx, Some(g));
    let ghost rooted = nodes@;
    assert(under(idx as int, idx as int));
    if len <= leaf_size {
        return ;
    }
    let mid: usize = lo + len / 2;
    proof {
        lemma_depth(points@.len(), leaf_size as nat, bottom, depth, len as nat);
        lemma_halves(points@.len(), depth, len as nat);
        lemma_pow2_unfold(depth + 2);
        if depth + 1 < bottom {
            lemma_pow2_strictly_increases(depth + 2, bottom + 1);
        }
    }
    let total: usize = nodes.len();
    assert(2 * idx + 1 < pow2(depth + 2) <= total);
    build_node(
        points,
        nodes,
        leaf_size,
        m,
        ef_construction,
        metric,
        idx * 2,
        lo,
        mid,
        Ghost(tree),
        Ghost(depth + 1),
        Ghost(bottom),
    );
    let ghost left = nodes@;
    build_node(
        points,
        nodes,
        leaf_size,
        m,
        ef_construction,
        metric,
        idx * 2 + 1,
        mid,
        hi,
        Ghost(tree),
        Ghost(depth + 1),
        Ghost(bottom),
    );
    proof {
        let done = nodes@;
        let at = idx as int;
        lemma_under(at, at);
        assert(left[at] == rooted[at]);
        assert(done[at] == left[at]);
        assert forall|j: int| 0 <= j < left.len() && under(2 * at, j) implies done[j] == left[j] by {
            lemma_under(at, j);
        }
        lemma_planted_frame(tree, left, done, 2 * at, lo as int, mid as int);
        assert forall|j: int| 0 <= j < old(nodes)@.len() && !under(at, j) implies (
        #[trigger] done[j]) == old(nodes)@[j] by {
            lemma_under(at, j);
            assert(done[j] == left[j]);
            assert(left[j] == rooted[j]);
        }
    }
}

} // verus!
