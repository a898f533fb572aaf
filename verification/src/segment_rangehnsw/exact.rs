//! Where a query answers as a scan does.

use vstd::prelude::*;

use crate::beam::search_from;
use crate::beam_laws::lemma_search_from_exact;
use crate::metric::Distance;
use crate::segment_rangehnsw::graph::{
    closest, grown, lemma_grown, lemma_grown_connected, Hit, ENTRY,
};
use crate::segment_rangehnsw::segment::{
    drawn, gids_of, keys_ascend, keys_of, lemma_all_hits, lemma_deduped, lemma_pieces,
    lemma_scan_hits, numbers_differ, pieces, points_differ, sorted_points, vecs_of, Piece, Tree,
};
use crate::segment_rangehnsw::{by_distance, hit_of, lemma_window_hits, window_hits};
use crate::sorting::{
    ascending, first_n, keyed_by, lemma_same_keys, lemma_stable_sort, lemma_stable_sort_contains,
    stable_sort, top_k,
};
use crate::spaces::{excluding, payloads};

verus! {

/// Sorted points are the same points, by ascending key.
pub proof fn lemma_sorted_points<T>(points: Seq<(u32, u64, Seq<T>)>)
    ensures
        sorted_points(points).len() == points.len(),
        keys_ascend(keys_of(sorted_points(points))),
        forall|p: (u32, u64, Seq<T>)| #[trigger]
            sorted_points(points).contains(p) <==> points.contains(p),
        points_differ(points) ==> points_differ(sorted_points(points)),
{
    let keyed = keyed_by(keys_of(points), points);
    let order = stable_sort(keyed);
    let sorted = sorted_points(points);
    lemma_stable_sort(keyed);
    assert forall|i: int| 0 <= i < sorted.len() implies order[i].0 == (#[trigger] sorted[i]).1
        && points.contains(sorted[i]) by {
        assert(order.contains(order[i]));
        lemma_stable_sort_contains(keyed, order[i]);
        let j = choose|j: int| 0 <= j < keyed.len() && keyed[j] == order[i];
        assert(points[j] == sorted[i]);
    }
    assert forall|i: int, j: int| 0 <= i <= j < sorted.len() implies keys_of(sorted)[i] <= keys_of(
        sorted,
    )[j] by {
        assert(order[i].0 <= order[j].0);
        assert(points.contains(sorted[i]) && points.contains(sorted[j]));
    }
    assert forall|p: (u32, u64, Seq<T>)| #[trigger]
        sorted.contains(p) <==> points.contains(p) by {
        if sorted.contains(p) {
            let i = choose|i: int| 0 <= i < sorted.len() && sorted[i] == p;
            assert(points.contains(sorted[i]));
        }
        if points.contains(p) {
            let j = choose|j: int| 0 <= j < points.len() && points[j] == p;
            assert(keyed.contains(keyed[j]));
            lemma_stable_sort_contains(keyed, keyed[j]);
            let i = choose|i: int| 0 <= i < order.len() && order[i] == keyed[j];
            assert(sorted[i] == p);
        }
    }
    if points_differ(points) {
        assert(keyed.no_duplicates()) by {
            assert forall|i: int, j: int|
                0 <= i < keyed.len() && 0 <= j < keyed.len() && i != j implies keyed[i]
                != keyed[j] by {
                if i < j {
                    assert(points[i].0 != points[j].0);
                } else {
                    assert(points[j].0 != points[i].0);
                }
            }
        }
        keyed.lemma_multiset_has_no_duplicates();
        order.lemma_multiset_has_no_duplicates_conv();
        assert forall|i: int, j: int| 0 <= i < j < sorted.len() implies (#[trigger] sorted[i]).0 != (
        #[trigger] sorted[j]).0 by {
            assert(points.contains(sorted[i]) && points.contains(sorted[j]));
            let x = choose|x: int| 0 <= x < points.len() && points[x] == sorted[i];
            let y = choose|y: int| 0 <= y < points.len() && points[y] == sorted[j];
            assert(order[i] != order[j]);
            assert(order[i].0 == sorted[i].1 && order[j].0 == sorted[j].1);
            if x < y {
                assert(points[x].0 != points[y].0);
            } else if y < x {
                assert(points[y].0 != points[x].0);
            }
        }
    }
}

/// A wide search of the graph over a small slice finds every point of it.
proof fn lemma_slice_found<T, D: Distance<T>>(
    tree: Tree<T, D>,
    q: Seq<T>,
    ef: usize,
    a: int,
    b: int,
    p: int,
)
    requires
        0 <= a <= p < b <= tree.points.len() <= 0x1_0000_0000,
        b - a <= 2 * tree.m + 1,
        b - a <= ef,
        tree.m >= 1,
        tree.ef_construction >= 1,
    ensures
        tree.slice_hits(q, ef, a, b).contains(hit_of(tree.metric, q, tree.points[p])),
{
    let points = tree.points.subrange(a, b);
    let vecs = vecs_of(points);
    let adj = grown(tree.metric, vecs, tree.m, tree.ef_construction, vecs.len());
    let nodes = excluding(tree.metric, q, vecs, Seq::empty());
    let id = (p - a) as u32;
    lemma_grown(tree.metric, vecs, tree.m, tree.ef_construction, vecs.len());
    lemma_grown_connected(tree.metric, vecs, tree.m, tree.ef_construction, vecs.len(), id);
    lemma_search_from_exact(nodes, closest(ef), adj, ENTRY, id);
    assert(nodes.admits(id));
    let found = search_from(nodes, closest(ef), adj, ENTRY);
    assert(found.contains((nodes.rank_of(id), id)));
    let i = choose|i: int| 0 <= i < found.len() && found[i] == (nodes.rank_of(id), id);
    let hits = tree.slice_hits(q, ef, a, b);
    assert(points[id as int] == tree.points[p]);
    assert(gids_of(points)[id as int] == tree.points[p].0);
    assert(hits[i] == hit_of(tree.metric, q, tree.points[p]));
}

proof fn lemma_pieces_found<T, D: Distance<T>>(
    tree: Tree<T, D>,
    q: Seq<T>,
    lo: u64,
    hi: u64,
    ef: usize,
    ps: Seq<Piece>,
    i: int,
    p: int,
)
    requires
        tree.points.len() <= 0x1_0000_0000,
        tree.points.len() <= 2 * tree.m + 1,
        tree.points.len() <= ef,
        tree.m >= 1,
        tree.ef_construction >= 1,
        0 <= i < ps.len(),
        0 <= ps[i].start <= p < ps[i].end <= tree.points.len(),
        lo <= tree.points[p].1 <= hi,
    ensures
        tree.all_hits(q, lo, hi, ef, ps).contains(hit_of(tree.metric, q, tree.points[p])),
    decreases ps.len(),
{
    let h = hit_of(tree.metric, q, tree.points[p]);
    let t = ps.drop_last();
    let first = tree.all_hits(q, lo, hi, ef, t);
    let later = tree.piece_hits(q, lo, hi, ef, ps.last());
    let hits = tree.all_hits(q, lo, hi, ef, ps);
    if i < t.len() {
        assert(t[i] == ps[i]);
        lemma_pieces_found(tree, q, lo, hi, ef, t, i, p);
        let j = choose|j: int| 0 <= j < first.len() && first[j] == h;
        assert(hits[j] == h);
    } else {
        let last = ps[i];
        if last.whole {
            lemma_slice_found(tree, q, ef, last.start, last.end, p);
        } else {
            let points = tree.points.subrange(last.start, last.end);
            lemma_window_hits(tree.metric, q, points, lo, hi);
            assert(points[p - last.start] == tree.points[p]);
        }
        assert(later.contains(h));
        let j = choose|j: int| 0 <= j < later.len() && later[j] == h;
        assert(hits[first.len() + j] == h);
    }
}

/// Hits by ascending distance: the same ones, each once.
proof fn lemma_hits_sorted(hits: Seq<Hit>)
    requires
        numbers_differ(hits),
    ensures
        ascending(stable_sort(by_distance(hits))),
        stable_sort(by_distance(hits)).no_duplicates(),
        stable_sort(by_distance(hits)).len() == hits.len(),
        numbers_differ(payloads(stable_sort(by_distance(hits)))),
        forall|x: (u64, Hit)| #[trigger]
            stable_sort(by_distance(hits)).contains(x) <==> x.0 == x.1.0 && hits.contains(x.1),
{
    let keyed = by_distance(hits);
    let order = stable_sort(keyed);
    lemma_stable_sort(keyed);
    assert(keyed.no_duplicates()) by {
        assert forall|i: int, j: int|
            0 <= i < keyed.len() && 0 <= j < keyed.len() && i != j implies keyed[i] != keyed[j] by {
            if i < j {
                assert(hits[i].1 != hits[j].1);
            } else {
                assert(hits[j].1 != hits[i].1);
            }
        }
    }
    keyed.lemma_multiset_has_no_duplicates();
    order.lemma_multiset_has_no_duplicates_conv();
    assert forall|x: (u64, Hit)| #[trigger]
        order.contains(x) <==> x.0 == x.1.0 && hits.contains(x.1) by {
        lemma_stable_sort_contains(keyed, x);
        if keyed.contains(x) {
            let i = choose|i: int| 0 <= i < keyed.len() && keyed[i] == x;
            assert(hits[i] == x.1);
        }
        if x.0 == x.1.0 && hits.contains(x.1) {
            let i = choose|i: int| 0 <= i < hits.len() && hits[i] == x.1;
            assert(keyed[i] == x);
        }
    }
    let sorted = payloads(order);
    assert forall|i: int, j: int| 0 <= i < j < sorted.len() implies (#[trigger] sorted[i]).1 != (
    #[trigger] sorted[j]).1 by {
        assert(order.contains(order[i]) && order.contains(order[j]));
        let x = choose|x: int| 0 <= x < hits.len() && hits[x] == sorted[i];
        let y = choose|y: int| 0 <= y < hits.len() && hits[y] == sorted[j];
        assert(order[i] != order[j]);
        if x < y {
            assert(hits[x].1 != hits[y].1);
        } else if y < x {
            assert(hits[y].1 != hits[x].1);
        }
    }
}

/// Over no more than `2 * m + 1` points with different numbers, a query that is as
/// wide as there are points returns as many hits as a scan of the points in the
/// window, and at the same distances.
pub proof fn lemma_answer_exact<T, D: Distance<T>>(
    tree: Tree<T, D>,
    points: Seq<(u32, u64, Seq<T>)>,
    q: Seq<T>,
    k: nat,
    lo: u64,
    hi: u64,
    ef: usize,
)
    requires
        tree.points == sorted_points(points),
        points_differ(points),
        points.len() <= 0x1_0000_0000,
        points.len() <= 2 * tree.m + 1,
        points.len() <= ef,
        tree.m >= 1,
        tree.ef_construction >= 1,
    ensures
        ({
            let r = tree.answer(q, k, lo, hi, ef);
            let scan = payloads(
                top_k(by_distance(window_hits(tree.metric, q, points, lo, hi)), k),
            );
            &&& r.len() == scan.len()
            &&& forall|i: int| 0 <= i < r.len() ==> (#[trigger] r[i]).0 == scan[i].0
        }),
{
    let n = points.len() as int;
    lemma_sorted_points(points);
    let keys = keys_of(tree.points);
    let ps = pieces(keys, tree.leaf, lo, hi, 0, n);
    lemma_pieces(keys, tree.leaf, lo, hi, 0, n);
    lemma_all_hits(tree, q, lo, hi, ef, ps, n);
    let given = Tree { points, ..tree };
    lemma_scan_hits(given, q, lo, hi, 0, n);
    assert(points.subrange(0, n) =~= points);
    lemma_window_hits(tree.metric, q, points, lo, hi);
    let wide = tree.query_hits(q, lo, hi, ef);
    let flat = window_hits(tree.metric, q, points, lo, hi);
    assert forall|h: Hit| #[trigger] wide.contains(h) <==> flat.contains(h) by {
        if wide.contains(h) {
            let i = choose|i: int| 0 <= i < wide.len() && wide[i] == h;
            assert(drawn(tree, q, lo, hi, 0, n, wide[i]));
            let p = choose|p: int|
                0 <= p < n && lo <= (#[trigger] tree.points[p]).1 <= hi && h == hit_of(
                    tree.metric,
                    q,
                    tree.points[p],
                );
            assert(tree.points.contains(tree.points[p]));
            assert(points.contains(tree.points[p]));
            let j = choose|j: int| 0 <= j < points.len() && points[j] == tree.points[p];
            assert(flat.contains(hit_of(tree.metric, q, points[j])));
        }
        if flat.contains(h) {
            let j = choose|j: int|
                0 <= j < points.len() && lo <= points[j].1 <= hi && h == hit_of(
                    tree.metric,
                    q,
                    #[trigger] points[j],
                );
            assert(points.contains(points[j]));
            assert(tree.points.contains(points[j]));
            let p = choose|p: int| 0 <= p < n && tree.points[p] == points[j];
            assert(lo <= keys[p] <= hi);
            let i = choose|i: int| 0 <= i < ps.len() && (#[trigger] ps[i]).start <= p < ps[i].end;
            lemma_pieces_found(tree, q, lo, hi, ef, ps, i, p);
        }
    }
    lemma_hits_sorted(wide);
    lemma_hits_sorted(flat);
    let a = stable_sort(by_distance(wide));
    let b = stable_sort(by_distance(flat));
    assert forall|x: (u64, Hit)| #[trigger] a.contains(x) <==> b.contains(x) by {
        assert(wide.contains(x.1) <==> flat.contains(x.1));
    }
    lemma_same_keys(a, b);
    lemma_deduped(payloads(a));
    let r = tree.answer(q, k, lo, hi, ef);
    let scan = payloads(top_k(by_distance(flat), k));
    assert(r == first_n(payloads(a), k));
    assert(scan =~= first_n(payloads(b), k));
    assert forall|i: int| 0 <= i < r.len() implies (#[trigger] r[i]).0 == scan[i].0 by {
        assert(a.contains(a[i]) && b.contains(b[i]));
        assert(a[i].0 == b[i].0);
    }
}

} // verus!
