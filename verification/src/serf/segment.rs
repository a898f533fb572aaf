//! A tree of graphs over the vectors in the order of their keys.
//!
//! The vectors are ranked by key. The root of a binary tree stands for all
//! ranks, and every other node for one half of its parent's ranks. A node that is
//! wide enough owns a graph over its vectors. A range of keys is a range of
//! ranks; it is taken apart into nodes that own graphs and, at its ends, into
//! single vectors.

use std::sync::Arc;

use vstd::prelude::*;

use crate::beam::listed_below;
use crate::bytes::{bytes_for_all, cells, clamped, held_by_all, lemma_rooms_fit, rooms_fit};
use crate::scalar::{is_less, less, Scalar};
use crate::serf::data::{sq_l2, sq_l2_of};
use crate::serf::nsw::{lemma_nsw_hits, nsw_hits, Nsw, NswParams};
use crate::serf::range::{Range, RangeSearch};
use crate::sorting::{
    lemma_stable_sort, lemma_stable_sort_contains, lemma_top_k, select_top_k, sort_by_key,
    stable_sort, top_k,
};
use crate::spaces::{payloads, take_payloads};
use crate::table::rows;

verus! {

/// The positions and keys of vectors, keyed by the latter.
pub open spec fn by_key<R: Scalar>(keys: Seq<R>) -> Seq<(u64, (u32, R))> {
    Seq::new(keys.len(), |i: int| (keys[i].key_of(), (i as u32, keys[i])))
}

/// The positions and keys of vectors in the order of the keys.
pub open spec fn key_order<R: Scalar>(keys: Seq<R>) -> Seq<(u32, R)> {
    payloads(stable_sort(by_key(keys)))
}

/// The keys do not decrease, every position exists, and none occurs twice.
pub open spec fn ordered<R: Scalar>(order: Seq<(u32, R)>, n: nat) -> bool {
    &&& forall|i: int, j: int|
        0 <= i <= j < order.len() ==> (#[trigger] order[i]).1.key_of() <= (
        #[trigger] order[j]).1.key_of()
    &&& forall|i: int| 0 <= i < order.len() ==> (#[trigger] order[i]).0 < n
    &&& forall|i: int, j: int|
        0 <= i < j < order.len() ==> (#[trigger] order[i]).0 != (#[trigger] order[j]).0
}

/// The order of keys ranks every vector once, with its key.
pub proof fn lemma_key_order<R: Scalar>(keys: Seq<R>)
    requires
        keys.len() <= u32::MAX,
    ensures
        key_order(keys).len() == keys.len(),
        ordered(key_order(keys), keys.len()),
        forall|i: int|
            0 <= i < keys.len() ==> (#[trigger] key_order(keys)[i]).1 == keys[key_order(
                keys,
            )[i].0 as int],
{
    let keyed = by_key(keys);
    let sorted = stable_sort(keyed);
    let order = key_order(keys);
    lemma_stable_sort(keyed);
    assert forall|i: int| 0 <= i < sorted.len() implies {
        let x = #[trigger] sorted[i];
        x.1.0 < keys.len() && x == keyed[x.1.0 as int]
    } by {
        assert(sorted.contains(sorted[i]));
        lemma_stable_sort_contains(keyed, sorted[i]);
        let j = choose|j: int| 0 <= j < keyed.len() && keyed[j] == sorted[i];
        assert(keyed[j] == sorted[i]);
    }
    assert(keyed.no_duplicates()) by {
        assert forall|i: int, j: int|
            0 <= i < keyed.len() && 0 <= j < keyed.len() && i != j implies keyed[i] != keyed[j] by {
            assert(keyed[i].1.0 == i && keyed[j].1.0 == j);
        }
    }
    keyed.lemma_multiset_has_no_duplicates();
    sorted.lemma_multiset_has_no_duplicates_conv();
    assert forall|i: int, j: int| 0 <= i <= j < order.len() implies (
    #[trigger] order[i]).1.key_of() <= (#[trigger] order[j]).1.key_of() by {
        assert(sorted[i].0 <= sorted[j].0);
        assert(sorted[i] == keyed[sorted[i].1.0 as int] && sorted[j]
            == keyed[sorted[j].1.0 as int]);
    }
    assert forall|i: int, j: int| 0 <= i < j < order.len() implies (#[trigger] order[i]).0 != (
    #[trigger] order[j]).0 by {
        assert(sorted[i] != sorted[j]);
        assert(sorted[i] == keyed[sorted[i].1.0 as int] && sorted[j]
            == keyed[sorted[j].1.0 as int]);
    }
    assert forall|i: int| 0 <= i < keys.len() implies (#[trigger] order[i]).1
        == keys[order[i].0 as int] by {
        assert(sorted[i] == keyed[sorted[i].1.0 as int]);
    }
}

/// The number of vectors whose key is less than `lo`.
pub open spec fn rank_below<R: Scalar>(order: Seq<(u32, R)>, lo: R) -> nat
    decreases order.len(),
{
    if order.len() == 0 {
        0
    } else {
        rank_below(order.drop_last(), lo) + if less(order.last().1, lo) {
            1nat
        } else {
            0
        }
    }
}

/// The number of vectors whose key is not greater than `hi`.
pub open spec fn rank_upto<R: Scalar>(order: Seq<(u32, R)>, hi: R) -> nat
    decreases order.len(),
{
    if order.len() == 0 {
        0
    } else {
        rank_upto(order.drop_last(), hi) + if less(hi, order.last().1) {
            0nat
        } else {
            1
        }
    }
}

proof fn lemma_rank_below<R: Scalar>(order: Seq<(u32, R)>, lo: R, c: nat)
    requires
        c <= order.len(),
        forall|i: int| 0 <= i < c ==> less((#[trigger] order[i]).1, lo),
        forall|i: int| c <= i < order.len() ==> !less((#[trigger] order[i]).1, lo),
    ensures
        rank_below(order, lo) == c,
    decreases order.len(),
{
    if order.len() > 0 {
        let t = order.drop_last();
        assert forall|i: int| 0 <= i < t.len() implies t[i] == #[trigger] order[i] by {}
        assert(order[order.len() - 1] == order.last());
        if c == order.len() {
            lemma_rank_below(t, lo, (c - 1) as nat);
        } else {
            lemma_rank_below(t, lo, c);
        }
    }
}

proof fn lemma_rank_upto<R: Scalar>(order: Seq<(u32, R)>, hi: R, c: nat)
    requires
        c <= order.len(),
        forall|i: int| 0 <= i < c ==> !less(hi, (#[trigger] order[i]).1),
        forall|i: int| c <= i < order.len() ==> less(hi, (#[trigger] order[i]).1),
    ensures
        rank_upto(order, hi) == c,
    decreases order.len(),
{
    if order.len() > 0 {
        let t = order.drop_last();
        assert forall|i: int| 0 <= i < t.len() implies t[i] == #[trigger] order[i] by {}
        assert(order[order.len() - 1] == order.last());
        if c == order.len() {
            lemma_rank_upto(t, hi, (c - 1) as nat);
        } else {
            lemma_rank_upto(t, hi, c);
        }
    }
}

/// Halving ends at one.
pub open spec fn is_power(w: nat) -> bool
    decreases w,
{
    w == 1 || (w > 1 && w % 2 == 0 && is_power(w / 2))
}

/// The smallest width of a tree with room for `n` ranks, from `w` on.
pub open spec fn tree_width(n: nat, w: nat) -> nat
    decreases
            if w < n {
                n - w
            } else {
                0
            },
{
    if w >= n || w == 0 {
        w
    } else {
        tree_width(n, 2 * w)
    }
}

/// The lesser of two numbers.
pub open spec fn lesser(a: nat, b: nat) -> nat {
    if a <= b {
        a
    } else {
        b
    }
}

/// Whether node `idx` for the `w` ranks from `l` on owns a graph: it has at least
/// two vectors, and its parent is wider than a leaf.
pub open spec fn owns(n: nat, leaf: nat, idx: nat, l: nat, w: nat) -> bool {
    lesser(l + w, n) - lesser(l, n) >= 2 && (idx == 1 || 2 * w > leaf)
}

/// The positions of the vectors with ranks from `lo` to `hi - 1`.
pub open spec fn ids_between<R>(order: Seq<(u32, R)>, lo: int, hi: int) -> Seq<u32> {
    Seq::new((hi - lo) as nat, |i: int| order[lo + i].0)
}

/// A part of a range of ranks.
#[derive(Debug, Clone, Copy, PartialEq, Eq, Structural)]
pub enum Part {
    /// A node of the tree that owns a graph, and its ranks.
    Node { idx: usize, lo: usize, hi: usize },
    /// A single rank.
    Rank { at: usize },
}

impl Part {
    /// The first rank.
    pub open spec fn first(self) -> int {
        match self {
            Part::Node { idx, lo, hi } => lo as int,
            Part::Rank { at } => at as int,
        }
    }

    /// The rank behind the last one.
    pub open spec fn end(self) -> int {
        match self {
            Part::Node { idx, lo, hi } => hi as int,
            Part::Rank { at } => at + 1,
        }
    }
}

/// The parts of the ranks from `rl` to `rr - 1` that lie under node `idx`, which
/// stands for the `w` ranks from `l` on.
pub open spec fn parts(n: nat, leaf: nat, idx: nat, l: nat, w: nat, rl: nat, rr: nat) -> Seq<Part>
    decreases w,
{
    if rr <= l || l + w <= rl || w == 0 {
        Seq::empty()
    } else if rl <= l && l + w <= rr && owns(n, leaf, idx, l, w) {
        seq![Part::Node { idx: idx as usize, lo: l as usize, hi: (l + w) as usize }]
    } else if w == 1 {
        seq![Part::Rank { at: l as usize }]
    } else {
        parts(n, leaf, 2 * idx, l, w / 2, rl, rr) + parts(
            n,
            leaf,
            2 * idx + 1,
            l + w / 2,
            w / 2,
            rl,
            rr,
        )
    }
}

/// The parts follow one another from `a` to `b`, and none is empty.
pub open spec fn tiles(p: Seq<Part>, a: int, b: int) -> bool
    decreases p.len(),
{
    if p.len() == 0 {
        a == b
    } else {
        let x = p.last();
        x.first() < x.end() && x.end() == b && tiles(p.drop_last(), a, x.first())
    }
}

proof fn lemma_tiles_join(p: Seq<Part>, q: Seq<Part>, a: int, b: int, c: int)
    requires
        tiles(p, a, b),
        tiles(q, b, c),
    ensures
        tiles(p + q, a, c),
    decreases q.len(),
{
    if q.len() == 0 {
        assert(p + q =~= p);
    } else {
        lemma_tiles_join(p, q.drop_last(), a, b, q.last().first());
        assert((p + q).drop_last() =~= p + q.drop_last());
        assert((p + q).last() == q.last());
    }
}

/// The parts under a node cover the ranks that are asked for and that it stands
/// for: all of these, and each once.
pub proof fn lemma_parts(n: nat, leaf: nat, idx: nat, l: nat, w: nat, rl: nat, rr: nat)
    requires
        is_power(w),
        rl <= rr <= n,
        l + w <= usize::MAX,
    ensures
        rr <= l || l + w <= rl ==> parts(n, leaf, idx, l, w, rl, rr).len() == 0,
        rl < rr && !(rr <= l || l + w <= rl) ==> tiles(
            parts(n, leaf, idx, l, w, rl, rr),
            if rl <= l {
                l as int
            } else {
                rl as int
            },
            if rr <= l + w {
                rr as int
            } else {
                (l + w) as int
            },
        ),
    decreases w,
{
    let p = parts(n, leaf, idx, l, w, rl, rr);
    if rr <= l || l + w <= rl {
    } else if rl <= l && l + w <= rr && owns(n, leaf, idx, l, w) {
        assert(p.drop_last() =~= Seq::empty());
        assert(p.last().first() == l && p.last().end() == l + w);
        assert(tiles(p.drop_last(), l as int, l as int));
    } else if w == 1 {
        assert(p.drop_last() =~= Seq::empty());
        assert(p.last().first() == l && p.last().end() == l + 1);
        assert(tiles(p.drop_last(), l as int, l as int));
    } else {
        let h = w / 2;
        let a = parts(n, leaf, 2 * idx, l, h, rl, rr);
        let b = parts(n, leaf, 2 * idx + 1, l + h, h, rl, rr);
        lemma_parts(n, leaf, 2 * idx, l, h, rl, rr);
        lemma_parts(n, leaf, 2 * idx + 1, l + h, h, rl, rr);
        let from = if rl <= l {
            l as int
        } else {
            rl as int
        };
        let to = if rr <= l + w {
            rr as int
        } else {
            (l + w) as int
        };
        if rl < rr {
            if l + h <= rl {
                assert(a.len() == 0);
                assert(p =~= b);
            } else if rr <= l + h {
                assert(b.len() == 0);
                assert(p =~= a);
            } else {
                lemma_tiles_join(a, b, from, (l + h) as int, to);
            }
        }
    }
}

/// How often a width can be halved.
pub open spec fn halvings(w: nat) -> nat
    decreases w,
{
    if w <= 1 {
        0
    } else {
        1 + halvings(w / 2)
    }
}

/// The number of nodes among parts.
pub open spec fn node_count(p: Seq<Part>) -> nat
    decreases p.len(),
{
    if p.len() == 0 {
        0
    } else {
        node_count(p.drop_last()) + match p.last() {
            Part::Node { idx, lo, hi } => 1nat,
            Part::Rank { at } => 0,
        }
    }
}

proof fn lemma_node_count_join(p: Seq<Part>, q: Seq<Part>)
    ensures
        node_count(p + q) == node_count(p) + node_count(q),
    decreases q.len(),
{
    if q.len() == 0 {
        assert(p + q =~= p);
    } else {
        lemma_node_count_join(p, q.drop_last());
        assert((p + q).drop_last() =~= p + q.drop_last());
        assert((p + q).last() == q.last());
    }
}

/// The parts of the two halves of a node.
proof fn lemma_halves(n: nat, leaf: nat, idx: nat, l: nat, w: nat, rl: nat, rr: nat)
    requires
        w > 1,
        is_power(w),
        !(rr <= l || l + w <= rl),
        !(rl <= l && l + w <= rr && owns(n, leaf, idx, l, w)),
    ensures
        node_count(parts(n, leaf, idx, l, w, rl, rr)) == node_count(
            parts(n, leaf, 2 * idx, l, w / 2, rl, rr),
        ) + node_count(parts(n, leaf, 2 * idx + 1, l + w / 2, w / 2, rl, rr)),
        halvings(w) == halvings(w / 2) + 1,
        is_power(w / 2),
        w == 2 * (w / 2),
{
    lemma_node_count_join(
        parts(n, leaf, 2 * idx, l, w / 2, rl, rr),
        parts(n, leaf, 2 * idx + 1, l + w / 2, w / 2, rl, rr),
    );
}

/// Below a leaf there are no nodes with graphs.
proof fn lemma_no_nodes(n: nat, leaf: nat, idx: nat, l: nat, w: nat, rl: nat, rr: nat)
    requires
        is_power(w),
        idx > 1,
        2 * w <= leaf,
    ensures
        node_count(parts(n, leaf, idx, l, w, rl, rr)) == 0,
    decreases w,
{
    let p = parts(n, leaf, idx, l, w, rl, rr);
    if rr <= l || l + w <= rl {
    } else if w == 1 {
        assert(p.drop_last() =~= Seq::empty());
        assert(node_count(p.drop_last()) == 0);
        assert(p.last() == Part::Rank { at: l as usize });
    } else {
        lemma_halves(n, leaf, idx, l, w, rl, rr);
        lemma_no_nodes(n, leaf, 2 * idx, l, w / 2, rl, rr);
        lemma_no_nodes(n, leaf, 2 * idx + 1, l + w / 2, w / 2, rl, rr);
    }
}

/// A node whose ranks are all asked for has one part, or none with a graph.
proof fn lemma_whole(n: nat, leaf: nat, idx: nat, l: nat, w: nat, rl: nat, rr: nat)
    requires
        is_power(w),
        idx >= 1,
        rl <= l,
        l + w <= rr <= n,
    ensures
        node_count(parts(n, leaf, idx, l, w, rl, rr)) <= 1,
{
    let p = parts(n, leaf, idx, l, w, rl, rr);
    if owns(n, leaf, idx, l, w) || w == 1 {
        assert(p.drop_last() =~= Seq::empty());
        assert(node_count(p.drop_last()) == 0);
    } else {
        lemma_no_nodes(n, leaf, idx, l, w, rl, rr);
    }
}

/// A node whose ranks are asked for up to one end has at most one part with a
/// graph for each halving.
proof fn lemma_one_sided(n: nat, leaf: nat, idx: nat, l: nat, w: nat, rl: nat, rr: nat)
    requires
        is_power(w),
        idx >= 1,
        rr <= n,
        rl <= l && rr < l + w || rl > l && l + w <= rr,
    ensures
        node_count(parts(n, leaf, idx, l, w, rl, rr)) <= halvings(w),
    decreases w,
{
    if rr <= l || l + w <= rl {
    } else {
        assert(w > 1);
        lemma_halves(n, leaf, idx, l, w, rl, rr);
        let h = w / 2;
        if rl <= l {
            if rr <= l + h {
                assert(parts(n, leaf, 2 * idx + 1, l + h, h, rl, rr).len() == 0);
                if rr == l + h {
                    lemma_whole(n, leaf, 2 * idx, l, h, rl, rr);
                } else {
                    lemma_one_sided(n, leaf, 2 * idx, l, h, rl, rr);
                }
            } else {
                lemma_whole(n, leaf, 2 * idx, l, h, rl, rr);
                lemma_one_sided(n, leaf, 2 * idx + 1, l + h, h, rl, rr);
            }
        } else if rl >= l + h {
            assert(parts(n, leaf, 2 * idx, l, h, rl, rr).len() == 0);
            if rl == l + h {
                lemma_whole(n, leaf, 2 * idx + 1, l + h, h, rl, rr);
            } else {
                lemma_one_sided(n, leaf, 2 * idx + 1, l + h, h, rl, rr);
            }
        } else {
            lemma_whole(n, leaf, 2 * idx + 1, l + h, h, rl, rr);
            lemma_one_sided(n, leaf, 2 * idx, l, h, rl, rr);
        }
    }
}

/// A range is taken apart into few nodes: at most two for each halving of the
/// tree, and one where it cannot be halved.
pub proof fn lemma_parts_few(n: nat, leaf: nat, idx: nat, l: nat, w: nat, rl: nat, rr: nat)
    requires
        is_power(w),
        idx >= 1,
        rr <= n,
    ensures
        node_count(parts(n, leaf, idx, l, w, rl, rr)) <= 2 * halvings(w) + 1,
    decreases w,
{
    if rr <= l || l + w <= rl {
    } else if rl <= l && l + w <= rr {
        lemma_whole(n, leaf, idx, l, w, rl, rr);
    } else if rl <= l || l + w <= rr {
        lemma_one_sided(n, leaf, idx, l, w, rl, rr);
    } else {
        assert(w > 1);
        lemma_halves(n, leaf, idx, l, w, rl, rr);
        let h = w / 2;
        if rr <= l + h {
            assert(parts(n, leaf, 2 * idx + 1, l + h, h, rl, rr).len() == 0);
            lemma_parts_few(n, leaf, 2 * idx, l, h, rl, rr);
        } else if rl >= l + h {
            assert(parts(n, leaf, 2 * idx, l, h, rl, rr).len() == 0);
            lemma_parts_few(n, leaf, 2 * idx + 1, l + h, h, rl, rr);
        } else {
            lemma_one_sided(n, leaf, 2 * idx, l, h, rl, rr);
            lemma_one_sided(n, leaf, 2 * idx + 1, l + h, h, rl, rr);
        }
    }
}

/// A node's ranks are those that its number stands for in a tree of width `size`.
pub open spec fn at_place(size: nat, idx: nat, l: nat, w: nat) -> bool {
    &&& idx * w == size + l
    &&& l + w <= size
    &&& is_power(w)
    &&& idx > 0
}

proof fn lemma_at_place(size: nat, idx: nat, l: nat, w: nat)
    requires
        at_place(size, idx, l, w),
    ensures
        idx < 2 * size,
        w > 1 ==> at_place(size, 2 * idx, l, w / 2) && at_place(
            size,
            2 * idx + 1,
            l + w / 2,
            w / 2,
        ),
{
    assert(idx < 2 * size) by (nonlinear_arith)
        requires
            idx * w == size + l,
            l + w <= size,
            w > 0,
    ;
    if w > 1 {
        let h = w / 2;
        assert(w == 2 * h);
        assert((2 * idx) * h == size + l && (2 * idx + 1) * h == size + l + h) by (nonlinear_arith)
            requires
                idx * w == size + l,
                w == 2 * h,
        ;
    }
}

/// Node `x` lies under node `idx`.
pub open spec fn under(idx: nat, x: nat) -> bool
    decreases x,
{
    x == idx || (x > idx && under(idx, x / 2))
}

proof fn lemma_under_child(idx: nat, x: nat)
    requires
        idx > 0,
        under(2 * idx, x) || under(2 * idx + 1, x),
    ensures
        under(idx, x),
        x > idx,
    decreases x,
{
    if x == 2 * idx || x == 2 * idx + 1 {
        assert(x / 2 == idx);
        assert(under(idx, x / 2));
    } else {
        lemma_under_child(idx, x / 2);
    }
}

proof fn lemma_under_apart(idx: nat, x: nat)
    requires
        idx > 0,
        under(2 * idx, x),
    ensures
        !under(2 * idx + 1, x),
    decreases x,
{
    if under(2 * idx + 1, x) {
        if x == 2 * idx + 1 {
            assert(under(2 * idx, x / 2));
            assert(x / 2 == idx);
        } else {
            lemma_under_apart(idx, x / 2);
        }
    }
}

/// What the trees of a collection have in common.
pub ghost struct Plan<R> {
    /// The vectors.
    pub vectors: Seq<Seq<R>>,
    /// Their positions and keys in the order of the keys.
    pub order: Seq<(u32, R)>,
    pub params: NswParams,
    /// The width of a leaf.
    pub leaf: nat,
}

/// A node owns the graph that it should own.
pub open spec fn right_node<R: Scalar>(
    plan: Plan<R>,
    node: Option<Nsw<R>>,
    idx: nat,
    l: nat,
    w: nat,
) -> bool {
    let n = plan.order.len();
    match node {
        Some(g) => {
            &&& owns(n, plan.leaf, idx, l, w)
            &&& g.valid()
            &&& g.all() == plan.vectors
            &&& g.numbers() == ids_between(plan.order, l as int, lesser(l + w, n) as int)
            &&& g.settings() == plan.params
        },
        None => !owns(n, plan.leaf, idx, l, w),
    }
}

/// Every node under `idx` owns the graph that it should own.
pub open spec fn right_tree<R: Scalar>(
    plan: Plan<R>,
    nodes: Seq<Option<Nsw<R>>>,
    idx: nat,
    l: nat,
    w: nat,
) -> bool
    decreases w,
{
    &&& right_node(plan, nodes[idx as int], idx, l, w)
    &&& w > 1 ==> right_tree(plan, nodes, 2 * idx, l, w / 2) && right_tree(
        plan,
        nodes,
        2 * idx + 1,
        l + w / 2,
        w / 2,
    )
}

proof fn lemma_tree_frame<R: Scalar>(
    plan: Plan<R>,
    size: nat,
    a: Seq<Option<Nsw<R>>>,
    b: Seq<Option<Nsw<R>>>,
    idx: nat,
    l: nat,
    w: nat,
)
    requires
        right_tree(plan, a, idx, l, w),
        at_place(size, idx, l, w),
        a.len() == 2 * size,
        b.len() == 2 * size,
        forall|x: nat| #[trigger] under(idx, x) && x < a.len() ==> a[x as int] == b[x as int],
    ensures
        right_tree(plan, b, idx, l, w),
    decreases w,
{
    lemma_at_place(size, idx, l, w);
    assert(under(idx, idx));
    if w > 1 {
        assert forall|x: nat| #[trigger] under(2 * idx, x) && x < a.len() implies a[x as int]
            == b[x as int] by {
            lemma_under_child(idx, x);
            assert(under(idx, x));
        }
        assert forall|x: nat| #[trigger] under(2 * idx + 1, x) && x < a.len() implies a[x as int]
            == b[x as int] by {
            lemma_under_child(idx, x);
            assert(under(idx, x));
        }
        lemma_tree_frame(plan, size, a, b, 2 * idx, l, w / 2);
        lemma_tree_frame(plan, size, a, b, 2 * idx + 1, l + w / 2, w / 2);
    }
}

/// Nothing under a node owns a graph.
spec fn bare<R>(nodes: Seq<Option<Nsw<R>>>, idx: nat) -> bool {
    forall|x: nat| #[trigger] under(idx, x) && x < nodes.len() ==> nodes[x as int] is None
}

proof fn lemma_bare_child<R>(nodes: Seq<Option<Nsw<R>>>, idx: nat)
    requires
        idx > 0,
        bare(nodes, idx),
    ensures
        bare(nodes, 2 * idx),
        bare(nodes, 2 * idx + 1),
{
    assert forall|x: nat| #[trigger] under(2 * idx, x) && x < nodes.len() implies nodes[x as int] is None by {
        lemma_under_child(idx, x);
        assert(under(idx, x));
    }
    assert forall|x: nat| #[trigger] under(2 * idx + 1, x) && x < nodes.len() implies nodes[x as int] is None by {
        lemma_under_child(idx, x);
        assert(under(idx, x));
    }
}

/// Nothing should own a graph under a node that has no vectors, or whose parent
/// is a leaf.
proof fn lemma_tree_bare<R: Scalar>(
    plan: Plan<R>,
    size: nat,
    nodes: Seq<Option<Nsw<R>>>,
    idx: nat,
    l: nat,
    w: nat,
)
    requires
        at_place(size, idx, l, w),
        nodes.len() == 2 * size,
        l >= plan.order.len() || (idx > 1 && 2 * w <= plan.leaf),
        bare(nodes, idx),
    ensures
        right_tree(plan, nodes, idx, l, w),
    decreases w,
{
    lemma_at_place(size, idx, l, w);
    assert(under(idx, idx));
    if w > 1 {
        lemma_bare_child(nodes, idx);
        lemma_tree_bare(plan, size, nodes, 2 * idx, l, w / 2);
        lemma_tree_bare(plan, size, nodes, 2 * idx + 1, l + w / 2, w / 2);
    }
}

/// Makes another pointer to the same value: `Arc::clone`.
#[verifier::external_body]
fn share<T>(a: &Arc<T>) -> (r: Arc<T>)
    ensures
        r == *a,
{
    Arc::clone(a)
}

/// Collects the positions of vectors by their ranks.
fn collect_between<R: Copy>(order: &[(u32, R)], lo: usize, hi: usize) -> (r: Vec<u32>)
    requires
        lo <= hi <= order@.len(),
    ensures
        r@ == ids_between(order@, lo as int, hi as int),
{
    let mut r: Vec<u32> = Vec::new();
    let mut i: usize = lo;
    while i < hi
        invariant
            lo <= i <= hi <= order@.len(),
            r@ =~= ids_between(order@, lo as int, i as int),
        decreases hi - i,
    {
        r.push(order[i].0);
        i += 1;
    }
    r
}

/// Builds the graphs of the nodes under `idx`, which stands for the ranks from `l`
/// to `r - 1`.
fn build_node<R: Scalar>(
    idx: usize,
    l: usize,
    r: usize,
    size: usize,
    leaf_size: usize,
    sorted: &Vec<(u32, R)>,
    vectors: &Arc<Vec<Vec<R>>>,
    params: NswParams,
    nodes: &mut Vec<Option<Nsw<R>>>,
)
    requires
        l < r,
        at_place(size as nat, idx as nat, l as nat, (r - l) as nat),
        idx == 1 || 2 * (r - l) > leaf_size,
        leaf_size > 0,
        old(nodes)@.len() == 2 * size,
        sorted@.len() <= u32::MAX,
        ordered(sorted@, vectors@.len()),
        bare(old(nodes)@, idx as nat),
    ensures
        final(nodes)@.len() == old(nodes)@.len(),
        right_tree(
            (Plan { vectors: rows(vectors@), order: sorted@, params, leaf: leaf_size as nat }),
            final(nodes)@,
            idx as nat,
            l as nat,
            (r - l) as nat,
        ),
        forall|x: int|
            0 <= x < old(nodes)@.len() && !under(idx as nat, x as nat) ==> (#[trigger] final(nodes)@[x])
                == old(nodes)@[x],
    decreases r - l,
{
    let ghost plan = Plan {
        vectors: rows(vectors@),
        order: sorted@,
        params,
        leaf: leaf_size as nat,
    };
    let ghost i = idx as nat;
    let ghost w = (r - l) as nat;
    let total: usize = nodes.len();
    let n: usize = sorted.len();
    proof {
        lemma_at_place(size as nat, i, l as nat, w);
    }
    if l >= n {
        proof {
            lemma_tree_bare(plan, size as nat, nodes@, i, l as nat, w);
        }
        return ;
    }
    let hi: usize = if r <= n {
        r
    } else {
        n
    };
    if hi - l >= 2 {
        let ids = collect_between(sorted.as_slice(), l, hi);
        assert(listed_below(ids@, vectors@.len())) by {
            assert forall|x: int| 0 <= x < ids@.len() implies (#[trigger] ids@[x]) < vectors@.len() by {
                assert(sorted@[l + x].0 < vectors@.len());
            }
        }
        let g = Nsw::build(share(vectors), ids, params);
        nodes.set(idx, Some(g));
    }
    let ghost now = nodes@;
    assert(under(i, i));
    assert(right_node(plan, now[idx as int], i, l as nat, w));
    if r - l <= leaf_size {
        proof {
            if w > 1 {
                lemma_bare_child(old(nodes)@, i);
                assert forall|x: nat| #[trigger] under(2 * i, x) && x < now.len() implies now[x as int] is None by {
                    lemma_under_child(i, x);
                }
                assert forall|x: nat| #[trigger] under(2 * i + 1, x) && x < now.len() implies now[x as int] is None by {
                    lemma_under_child(i, x);
                }
                lemma_tree_bare(plan, size as nat, now, 2 * i, l as nat, w / 2);
                lemma_tree_bare(plan, size as nat, now, 2 * i + 1, l as nat + w / 2, w / 2);
            }
        }
        return ;
    }
    let half: usize = (r - l) / 2;
    let mid: usize = l + half;
    proof {
        assert(is_power(w) && w > 1);
        assert(w == 2 * half);
        lemma_at_place(size as nat, 2 * i + 1, mid as nat, half as nat);
        assert(2 * i + 1 < total);
        lemma_bare_child(old(nodes)@, i);
        assert(bare(now, 2 * i)) by {
            assert forall|x: nat| #[trigger] under(2 * i, x) && x < now.len() implies now[x as int] is None by {
                lemma_under_child(i, x);
            }
        }
    }
    build_node(2 * idx, l, mid, size, leaf_size, sorted, vectors, params, nodes);
    let ghost left = nodes@;
    proof {
        assert(bare(left, 2 * i + 1)) by {
            assert forall|x: nat| #[trigger] under(2 * i + 1, x) && x < left.len() implies left[x as int] is None by {
                lemma_under_child(i, x);
                if under(2 * i, x) {
                    lemma_under_apart(i, x);
                }
                assert(left[x as int] == now[x as int]);
            }
        }
    }
    build_node(2 * idx + 1, mid, r, size, leaf_size, sorted, vectors, params, nodes);
    proof {
        let both = nodes@;
        assert forall|x: nat| #[trigger] under(2 * i, x) && x < left.len() implies left[x as int]
            == both[x as int] by {
            lemma_under_apart(i, x);
            assert(both[x as int] == left[x as int]);
        }
        lemma_tree_frame(plan, size as nat, left, both, 2 * i, l as nat, half as nat);
        assert(!under(2 * i, i) && !under(2 * i + 1, i));
        assert(both[i as int] == left[i as int]);
        assert(left[i as int] == now[i as int]);
        assert forall|x: int| 0 <= x < both.len() && !under(i, x as nat) implies (
        #[trigger] both[x]) == old(nodes)@[x] by {
            if under(2 * i, x as nat) || under(2 * i + 1, x as nat) {
                lemma_under_child(i, x as nat);
            }
            assert(both[x] == left[x]);
            assert(left[x] == now[x]);
        }
    }
}

/// The vectors with ranks from `lo` to `hi - 1`: positions and distances, keyed by
/// the latter.
pub open spec fn direct<R: Scalar>(plan: Plan<R>, q: Seq<R>, lo: int, hi: int) -> Seq<
    (u64, (usize, R)),
> {
    Seq::new(
        (hi - lo) as nat,
        |i: int|
            {
                let id = plan.order[lo + i].0;
                let d = sq_l2_of(q, plan.vectors[id as int]);
                (d.key_of(), (id as usize, d))
            },
    )
}

/// What a part of a range contributes to a search: what its graph finds, or its
/// single vector.
pub open spec fn part_hits<R: Scalar>(plan: Plan<R>, q: Seq<R>, per: usize, part: Part) -> Seq<
    (usize, R),
> {
    match part {
        Part::Node { idx, lo, hi } => nsw_hits(
            plan.vectors,
            ids_between(plan.order, lo as int, hi as int),
            plan.params,
            q,
            per,
        ),
        Part::Rank { at } => payloads(direct(plan, q, at as int, at + 1)),
    }
}

/// What the parts of a range contribute.
pub open spec fn merged<R: Scalar>(plan: Plan<R>, q: Seq<R>, per: usize, p: Seq<Part>) -> Seq<
    (usize, R),
>
    decreases p.len(),
{
    if p.len() == 0 {
        Seq::empty()
    } else {
        merged(plan, q, per, p.drop_last()) + part_hits(plan, q, per, p.last())
    }
}

/// Hits, keyed by position.
pub open spec fn by_position<R>(found: Seq<(usize, R)>) -> Seq<(u64, (usize, R))> {
    Seq::new(found.len(), |i: int| (found[i].0 as u64, found[i]))
}

/// Hits, keyed by distance.
pub open spec fn by_distance<R: Scalar>(found: Seq<(usize, R)>) -> Seq<(u64, (usize, R))> {
    Seq::new(found.len(), |i: int| (found[i].1.key_of(), found[i]))
}

/// The `k` best of the hits that the parts contribute; of two at the same
/// distance, the one with the smaller position is better.
pub open spec fn best_of<R: Scalar>(found: Seq<(usize, R)>, k: nat) -> Seq<(usize, R)> {
    payloads(top_k(by_distance(payloads(stable_sort(by_position(found)))), k))
}

/// The number of results that each graph is searched for.
pub open spec fn per_node(params: NswParams, k: usize) -> usize {
    if k < params.ef_search / 2 {
        params.ef_search / 2
    } else {
        k
    }
}

/// What a search finds. A range that is not wider than a leaf is scanned.
pub open spec fn segment_hits<R: Scalar>(
    plan: Plan<R>,
    width: nat,
    q: Seq<R>,
    range: Range<R>,
    k: usize,
) -> Seq<(usize, R)> {
    let rl = rank_below(plan.order, range.lo);
    let rr = rank_upto(plan.order, range.hi);
    if rr <= rl {
        Seq::empty()
    } else if rr - rl <= plan.leaf {
        payloads(top_k(direct(plan, q, rl as int, rr as int), k as nat))
    } else {
        let p = parts(plan.order.len(), plan.leaf, 1, 0, width, rl, rr);
        best_of(merged(plan, q, per_node(plan.params, k), p), k as nat)
    }
}

/// A tree of graphs over vectors in the order of their keys.
pub struct SegmentGraph<R> {
    pub vectors: Arc<Vec<Vec<R>>>,
    /// Positions and keys in the order of the keys.
    sorted: Vec<(u32, R)>,
    /// The nodes of the tree: the children of node `i` are nodes `2 * i` and
    /// `2 * i + 1`.
    nodes: Vec<Option<Nsw<R>>>,
    size: usize,
    leaf_size: usize,
    params: NswParams,
}

impl<R: Scalar> SegmentGraph<R> {
    /// What the tree is built for.
    pub closed spec fn plan(&self) -> Plan<R> {
        Plan {
            vectors: rows(self.vectors@),
            order: self.sorted@,
            params: self.params,
            leaf: self.leaf_size as nat,
        }
    }

    /// The number of ranks that the root stands for.
    pub closed spec fn width(&self) -> nat {
        self.size as nat
    }

    /// The nodes of the tree.
    pub closed spec fn tree(&self) -> Seq<Option<Nsw<R>>> {
        self.nodes@
    }

    /// Every node owns the graph that it should own.
    pub open spec fn valid(&self) -> bool {
        &&& self.plan().order.len() == self.plan().vectors.len() <= u32::MAX
        &&& ordered(self.plan().order, self.plan().vectors.len())
        &&& self.plan().leaf > 0
        &&& self.plan().order.len() <= self.width()
        &&& is_power(self.width())
        &&& self.tree().len() == 2 * self.width()
        &&& right_tree(self.plan(), self.tree(), 1, 0, self.width())
    }

    /// Builds the tree.
    pub fn build(
        vectors: Arc<Vec<Vec<R>>>,
        keys: Vec<R>,
        params: NswParams,
        leaf_size: usize,
    ) -> (g: Self)
        requires
            vectors@.len() == keys@.len(),
            vectors@.len() <= u32::MAX,
            4 * vectors@.len() <= usize::MAX,
            leaf_size > 0,
        ensures
            g.valid(),
            g.plan() == (Plan {
                vectors: rows(vectors@),
                order: key_order(keys@),
                params,
                leaf: leaf_size as nat,
            }),
            g.width() == tree_width(vectors@.len(), 1),
    {
        let n: usize = vectors.len();
        let mut keyed: Vec<(u64, (u32, R))> = Vec::new();
        let mut i: usize = 0;
        while i < n
            invariant
                i <= n,
                n == keys@.len(),
                n <= u32::MAX,
                keyed@ =~= by_key(keys@).take(i as int),
            decreases n - i,
        {
            keyed.push((keys[i].key(), (i as u32, keys[i])));
            i += 1;
        }
        assert(by_key(keys@).take(n as int) =~= by_key(keys@));
        let in_order = sort_by_key(keyed.as_slice());
        let sorted = take_payloads(in_order.as_slice());
        proof {
            lemma_key_order(keys@);
        }
        let mut size: usize = 1;
        while size < n
            invariant
                is_power(size as nat),
                size == 1 || size < 2 * n,
                4 * n <= usize::MAX,
                tree_width(n as nat, size as nat) == tree_width(n as nat, 1),
            decreases 2 * n - size,
        {
            assert(is_power(2 * size as nat)) by {
                assert((2 * size as nat) / 2 == size as nat);
            }
            size = 2 * size;
        }
        let mut nodes: Vec<Option<Nsw<R>>> = Vec::new();
        let mut j: usize = 0;
        while j < 2 * size
            invariant
                j <= 2 * size <= usize::MAX,
                nodes@.len() == j,
                forall|x: int| 0 <= x < j ==> #[trigger] nodes@[x] is None,
            decreases 2 * size - j,
        {
            nodes.push(None);
            j += 1;
        }
        build_node(1, 0, size, size, leaf_size, &sorted, &vectors, params, &mut nodes);
        SegmentGraph { vectors, sorted, nodes, size, leaf_size, params }
    }

    /// The ranks of the keys in a range.
    fn key_range_to_rank(&self, range: Range<R>) -> (r: (usize, usize))
        requires
            ordered(self.plan().order, self.plan().vectors.len()),
        ensures
            r.0 == rank_below(self.plan().order, range.lo),
            r.1 == rank_upto(self.plan().order, range.hi),
            r.0 <= self.plan().order.len(),
            r.1 <= self.plan().order.len(),
    {
        let n: usize = self.sorted.len();
        let ghost order = self.sorted@;
        let mut low: usize = 0;
        let mut high: usize = n;
        while low < high
            invariant
                low <= high <= n,
                n == self.sorted@.len(),
                order == self.sorted@,
                ordered(order, self.plan().vectors.len()),
                forall|i: int| 0 <= i < low ==> less((#[trigger] order[i]).1, range.lo),
                forall|i: int| high <= i < n ==> !less((#[trigger] order[i]).1, range.lo),
            decreases high - low,
        {
            let mid: usize = low + (high - low) / 2;
            if is_less(self.sorted[mid].1, range.lo) {
                assert forall|i: int| 0 <= i < mid + 1 implies less(
                    (#[trigger] order[i]).1,
                    range.lo,
                ) by {
                    assert(order[i].1.key_of() <= order[mid as int].1.key_of());
                }
                low = mid + 1;
            } else {
                assert forall|i: int| mid <= i < n implies !less(
                    (#[trigger] order[i]).1,
                    range.lo,
                ) by {
                    assert(order[mid as int].1.key_of() <= order[i].1.key_of());
                }
                high = mid;
            }
        }
        proof {
            lemma_rank_below(order, range.lo, low as nat);
        }
        let rl: usize = low;
        low = 0;
        high = n;
        while low < high
            invariant
                low <= high <= n,
                n == self.sorted@.len(),
                order == self.sorted@,
                ordered(order, self.plan().vectors.len()),
                forall|i: int| 0 <= i < low ==> !less(range.hi, (#[trigger] order[i]).1),
                forall|i: int| high <= i < n ==> less(range.hi, (#[trigger] order[i]).1),
            decreases high - low,
        {
            let mid: usize = low + (high - low) / 2;
            if is_less(range.hi, self.sorted[mid].1) {
                assert forall|i: int| mid <= i < n implies less(
                    range.hi,
                    (#[trigger] order[i]).1,
                ) by {
                    assert(order[mid as int].1.key_of() <= order[i].1.key_of());
                }
                high = mid;
            } else {
                assert forall|i: int| 0 <= i < mid + 1 implies !less(
                    range.hi,
                    (#[trigger] order[i]).1,
                ) by {
                    assert(order[i].1.key_of() <= order[mid as int].1.key_of());
                }
                low = mid + 1;
            }
        }
        proof {
            lemma_rank_upto(order, range.hi, low as nat);
        }
        (rl, low)
    }

    /// A part lies in the range of ranks, and the graph of its node is the one
    /// over its ranks.
    closed spec fn serves(&self, part: Part, rl: int, rr: int) -> bool {
        &&& rl <= part.first() < part.end() <= rr
        &&& part matches Part::Node { idx, lo, hi } ==> {
            &&& idx < self.nodes@.len()
            &&& self.nodes@[idx as int] matches Some(g) && {
                &&& g.valid()
                &&& g.all() == self.plan().vectors
                &&& g.numbers() == ids_between(self.plan().order, lo as int, hi as int)
                &&& g.settings() == self.plan().params
            }
        }
    }

    /// The parts of a range of ranks.
    fn canonical_nodes(&self, rl: usize, rr: usize) -> (out: Vec<Part>)
        requires
            self.valid(),
            rl <= rr <= self.plan().order.len(),
        ensures
            out@ == parts(
                self.plan().order.len(),
                self.plan().leaf,
                1,
                0,
                self.width(),
                rl as nat,
                rr as nat,
            ),
            forall|i: int|
                0 <= i < out@.len() ==> self.serves(#[trigger] out@[i], rl as int, rr as int),
    {
        let mut out: Vec<Part> = Vec::new();
        self.canon_rec(1, 0, self.size, rl, rr, &mut out);
        out
    }

    fn canon_rec(
        &self,
        idx: usize,
        l: usize,
        r: usize,
        rl: usize,
        rr: usize,
        out: &mut Vec<Part>,
    )
        requires
            l < r,
            at_place(self.width(), idx as nat, l as nat, (r - l) as nat),
            right_tree(self.plan(), self.tree(), idx as nat, l as nat, (r - l) as nat),
            self.tree().len() == 2 * self.width(),
            rl <= rr <= self.plan().order.len(),
            forall|i: int|
                0 <= i < old(out)@.len() ==> self.serves(
                    #[trigger] old(out)@[i],
                    rl as int,
                    rr as int,
                ),
        ensures
            final(out)@ == old(out)@ + parts(
                self.plan().order.len(),
                self.plan().leaf,
                idx as nat,
                l as nat,
                (r - l) as nat,
                rl as nat,
                rr as nat,
            ),
            forall|i: int|
                0 <= i < final(out)@.len() ==> self.serves(
                    #[trigger] final(out)@[i],
                    rl as int,
                    rr as int,
                ),
        decreases r - l,
    {
        let ghost w = (r - l) as nat;
        let ghost want = parts(
            self.plan().order.len(),
            self.plan().leaf,
            idx as nat,
            l as nat,
            w,
            rl as nat,
            rr as nat,
        );
        proof {
            lemma_at_place(self.width(), idx as nat, l as nat, w);
        }
        if rr <= l || r <= rl {
            assert(out@ =~= old(out)@ + want);
            return ;
        }
        if rl <= l && r <= rr && self.nodes[idx].is_some() {
            out.push(Part::Node { idx, lo: l, hi: r });
            assert(out@ =~= old(out)@ + want);
            return ;
        }
        if r - l == 1 {
            out.push(Part::Rank { at: l });
            assert(out@ =~= old(out)@ + want);
            return ;
        }
        let half: usize = (r - l) / 2;
        let mid: usize = l + half;
        let total: usize = self.nodes.len();
        proof {
            assert(w == 2 * half);
            lemma_at_place(self.width(), 2 * idx as nat + 1, mid as nat, half as nat);
            assert(2 * idx + 1 < total);
        }
        self.canon_rec(2 * idx, l, mid, rl, rr, out);
        self.canon_rec(2 * idx + 1, mid, r, rl, rr, out);
        assert(out@ =~= old(out)@ + want);
    }

    /// The bytes that the graphs' lists hold, or the greatest number where these
    /// do not fit: for each graph, four for each neighbour that there is room for,
    /// and a header for each list.
    pub fn graph_bytes(&self) -> (r: usize)
        ensures
            r >= clamped(lists_bytes(self.tree())),
            exists|sets: Seq<Seq<usize>>| #[trigger]
                tree_rooms_fit(self.tree(), sets) && r == clamped(held_by_all(sets, 24)),
    {
        let n: usize = self.nodes.len();
        let mut sets: Vec<Vec<usize>> = Vec::new();
        let mut i: usize = 0;
        while i < n
            invariant
                i <= n,
                n == self.nodes@.len(),
                sets@.len() == i,
                forall|j: int|
                    0 <= j < i ==> node_rooms_fit(self.nodes@[j], (#[trigger] sets@[j])@),
            decreases n - i,
        {
            let rooms: Vec<usize> = match &self.nodes[i] {
                Some(g) => g.rooms(),
                None => Vec::new(),
            };
            assert(node_rooms_fit(self.nodes@[i as int], rooms@));
            sets.push(rooms);
            i += 1;
        }
        proof {
            let all = rows(sets@);
            assert forall|j: int| 0 <= j < n implies node_rooms_fit(
                self.tree()[j],
                #[trigger] all[j],
            ) by {
                assert(all[j] == sets@[j]@);
            }
            assert(tree_rooms_fit(self.tree(), all));
            lemma_lists_bytes(self.tree(), all);
        }
        bytes_for_all(sets.as_slice(), 24)
    }

    /// The number of graphs.
    pub fn num_graphs(&self) -> (r: usize)
        ensures
            r == graph_count(self.tree()),
    {
        let n: usize = self.nodes.len();
        let mut r: usize = 0;
        let mut i: usize = 0;
        while i < n
            invariant
                i <= n,
                n == self.nodes@.len(),
                r == graph_count(self.nodes@.take(i as int)),
                r <= i,
            decreases n - i,
        {
            proof {
                assert(self.nodes@.take(i + 1).drop_last() =~= self.nodes@.take(i as int));
                assert(self.nodes@.take(i + 1).last() == self.nodes@[i as int]);
            }
            if self.nodes[i].is_some() {
                r += 1;
            }
            i += 1;
        }
        assert(self.nodes@.take(n as int) =~= self.nodes@);
        r
    }

    /// The vectors with ranks from `rl` to `rr - 1`, keyed by distance.
    fn measure(&self, q: &[R], rl: usize, rr: usize) -> (all: Vec<(u64, (usize, R))>)
        requires
            rl <= rr <= self.plan().order.len(),
            ordered(self.plan().order, self.plan().vectors.len()),
        ensures
            all@ == direct(self.plan(), q@, rl as int, rr as int),
    {
        let mut all: Vec<(u64, (usize, R))> = Vec::new();
        let mut i: usize = rl;
        while i < rr
            invariant
                rl <= i <= rr <= self.sorted@.len(),
                ordered(self.sorted@, self.vectors@.len()),
                all@ =~= direct(self.plan(), q@, rl as int, i as int),
            decreases rr - i,
        {
            let id: u32 = self.sorted[i].0;
            assert(self.sorted@[i as int].0 < self.vectors@.len());
            let d: R = sq_l2(q, self.vectors[id as usize].as_slice());
            all.push((d.key(), (id as usize, d)));
            i += 1;
        }
        all
    }

    /// Scans the vectors with ranks from `rl` to `rr - 1`.
    fn brute(&self, q: &[R], rl: usize, rr: usize, k: usize) -> (found: Vec<(usize, R)>)
        requires
            rl <= rr <= self.plan().order.len(),
            ordered(self.plan().order, self.plan().vectors.len()),
        ensures
            found@ == payloads(top_k(direct(self.plan(), q@, rl as int, rr as int), k as nat)),
    {
        let all = self.measure(q, rl, rr);
        let top = select_top_k(all.as_slice(), k);
        take_payloads(top.as_slice())
    }

    /// Collects what the parts of a range contribute.
    fn gather(&self, q: &[R], per: usize, list: &Vec<Part>, rl: usize, rr: usize) -> (found: Vec<
        (usize, R),
    >)
        requires
            self.valid(),
            rr <= self.plan().order.len(),
            forall|i: int|
                0 <= i < list@.len() ==> self.serves(#[trigger] list@[i], rl as int, rr as int),
        ensures
            found@ == merged(self.plan(), q@, per, list@),
    {
        let n: usize = list.len();
        let mut found: Vec<(usize, R)> = Vec::new();
        let mut i: usize = 0;
        assert(list@.take(0) =~= Seq::empty());
        while i < n
            invariant
                i <= n,
                n == list@.len(),
                self.valid(),
                rr <= self.plan().order.len(),
                forall|i: int|
                    0 <= i < list@.len() ==> self.serves(#[trigger] list@[i], rl as int, rr as int),
                found@ == merged(self.plan(), q@, per, list@.take(i as int)),
            decreases n - i,
        {
            let part: Part = list[i];
            let ghost before = found@;
            proof {
                assert(list@.take(i + 1).drop_last() =~= list@.take(i as int));
                assert(list@.take(i + 1).last() == part);
                assert(self.serves(list@[i as int], rl as int, rr as int));
            }
            let mut more: Vec<(usize, R)> = match part {
                Part::Node { idx, lo, hi } => {
                    match &self.nodes[idx] {
                        Some(g) => g.search(q, per),
                        None => Vec::new(),
                    }
                },
                Part::Rank { at } => {
                    let one = self.measure(q, at, at + 1);
                    take_payloads(one.as_slice())
                },
            };
            let ghost added = more@;
            assert(added == part_hits(self.plan(), q@, per, part));
            found.append(&mut more);
            assert(found@ =~= before + added);
            i += 1;
        }
        assert(list@.take(n as int) =~= list@);
        found
    }
}

/// The bytes of the lists of all graphs.
pub open spec fn lists_bytes<R: Scalar>(nodes: Seq<Option<Nsw<R>>>) -> nat
    decreases nodes.len(),
{
    if nodes.len() == 0 {
        0
    } else {
        lists_bytes(nodes.drop_last()) + match nodes.last() {
            Some(g) => 4 * cells(g.lists()) + 24 * g.lists().len(),
            None => 0,
        }
    }
}

/// `rooms` can be what the lists of a node's graph have room for. A node without a
/// graph has none.
pub open spec fn node_rooms_fit<R: Scalar>(node: Option<Nsw<R>>, rooms: Seq<usize>) -> bool {
    match node {
        Some(g) => rooms_fit(g.lists(), rooms),
        None => rooms.len() == 0,
    }
}

/// `sets` can be what the lists of the nodes' graphs have room for.
pub open spec fn tree_rooms_fit<R: Scalar>(
    nodes: Seq<Option<Nsw<R>>>,
    sets: Seq<Seq<usize>>,
) -> bool {
    &&& sets.len() == nodes.len()
    &&& forall|i: int| 0 <= i < nodes.len() ==> node_rooms_fit(nodes[i], #[trigger] sets[i])
}

proof fn lemma_lists_bytes<R: Scalar>(nodes: Seq<Option<Nsw<R>>>, sets: Seq<Seq<usize>>)
    requires
        tree_rooms_fit(nodes, sets),
    ensures
        lists_bytes(nodes) <= held_by_all(sets, 24),
    decreases nodes.len(),
{
    if nodes.len() > 0 {
        let t = nodes.drop_last();
        let few = sets.drop_last();
        assert forall|i: int| 0 <= i < t.len() implies node_rooms_fit(t[i], #[trigger] few[i]) by {
            assert(few[i] == sets[i]);
        }
        lemma_lists_bytes(t, few);
        assert(node_rooms_fit(nodes[nodes.len() - 1], sets[nodes.len() - 1]));
        match nodes.last() {
            Some(g) => {
                lemma_rooms_fit(g.lists(), sets.last());
            },
            None => {},
        }
    }
}

/// The number of nodes that own a graph.
pub open spec fn graph_count<R>(nodes: Seq<Option<Nsw<R>>>) -> nat
    decreases nodes.len(),
{
    if nodes.len() == 0 {
        0
    } else {
        graph_count(nodes.drop_last()) + if nodes.last() is Some {
            1nat
        } else {
            0
        }
    }
}

/// Selects the `k` best hits.
fn select_best<R: Scalar>(found: &[(usize, R)], k: usize) -> (r: Vec<(usize, R)>)
    ensures
        r@ == best_of(found@, k as nat),
{
    let n: usize = found.len();
    let mut keyed: Vec<(u64, (usize, R))> = Vec::new();
    let mut i: usize = 0;
    while i < n
        invariant
            i <= n,
            n == found@.len(),
            keyed@ =~= by_position(found@).take(i as int),
        decreases n - i,
    {
        keyed.push((found[i].0 as u64, found[i]));
        i += 1;
    }
    assert(by_position(found@).take(n as int) =~= by_position(found@));
    let in_order = sort_by_key(keyed.as_slice());
    let listed = take_payloads(in_order.as_slice());
    let ghost want = by_distance(listed@);
    let mut all: Vec<(u64, (usize, R))> = Vec::new();
    let mut j: usize = 0;
    while j < n
        invariant
            j <= n,
            n == listed@.len(),
            want == by_distance(listed@),
            all@ =~= want.take(j as int),
        decreases n - j,
    {
        all.push((listed[j].1.key(), listed[j]));
        j += 1;
    }
    assert(want.take(n as int) =~= want);
    let top = select_top_k(all.as_slice(), k);
    take_payloads(top.as_slice())
}

impl<R: Scalar> RangeSearch<R> for SegmentGraph<R> {
    open spec fn ready(&self, k: nat) -> bool {
        self.valid()
    }

    open spec fn answer(&self, q: Seq<R>, range: Range<R>, k: nat) -> Seq<(usize, R)> {
        segment_hits(self.plan(), self.width(), q, range, k as usize)
    }

    open spec fn label(&self) -> Seq<char> {
        "serf-segment-graph"@
    }

    fn name(&self) -> (r: &'static str) {
        "serf-segment-graph"
    }

    fn search(&self, q: &[R], range: Range<R>, k: usize) -> (found: Vec<(usize, R)>) {
        let (rl, rr) = self.key_range_to_rank(range);
        if rr <= rl {
            return Vec::new();
        }
        if rr - rl <= self.leaf_size {
            return self.brute(q, rl, rr, k);
        }
        let list = self.canonical_nodes(rl, rr);
        let half: usize = self.params.ef_search / 2;
        let per: usize = if k < half {
            half
        } else {
            k
        };
        let found = self.gather(q, per, &list, rl, rr);
        select_best(found.as_slice(), k)
    }
}

/// Ranks below `rank_below` are those of smaller keys.
proof fn lemma_below_cut<R: Scalar>(order: Seq<(u32, R)>, lo: R, n: nat)
    requires
        ordered(order, n),
    ensures
        rank_below(order, lo) <= order.len(),
        forall|i: int|
            0 <= i < order.len() ==> (less((#[trigger] order[i]).1, lo) <==> i < rank_below(
                order,
                lo,
            )),
    decreases order.len(),
{
    if order.len() > 0 {
        let t = order.drop_last();
        assert forall|i: int| 0 <= i < t.len() implies t[i] == #[trigger] order[i] by {}
        assert(ordered(t, n)) by {
            assert forall|i: int, j: int| 0 <= i <= j < t.len() implies (
            #[trigger] t[i]).1.key_of() <= (#[trigger] t[j]).1.key_of() by {
                assert(order[i].1.key_of() <= order[j].1.key_of());
            }
            assert forall|i: int| 0 <= i < t.len() implies (#[trigger] t[i]).0 < n by {
                assert(order[i].0 < n);
            }
            assert forall|i: int, j: int| 0 <= i < j < t.len() implies (#[trigger] t[i]).0 != (
            #[trigger] t[j]).0 by {
                assert(order[i].0 != order[j].0);
            }
        }
        lemma_below_cut(t, lo, n);
        let last = order.len() - 1;
        if less(order[last].1, lo) {
            assert forall|i: int| 0 <= i < t.len() implies less((#[trigger] order[i]).1, lo) by {
                assert(order[i].1.key_of() <= order[last].1.key_of());
            }
            assert(rank_below(t, lo) == t.len()) by {
                if rank_below(t, lo) < t.len() {
                    let c = rank_below(t, lo) as int;
                    assert(less(order[c].1, lo));
                    assert(t[c] == order[c]);
                }
            }
        }
        assert forall|i: int| 0 <= i < order.len() implies (less((#[trigger] order[i]).1, lo) <==> i
            < rank_below(order, lo)) by {
            if i < t.len() {
                assert(t[i] == order[i]);
            }
        }
    }
}

/// Ranks below `rank_upto` are those of keys that are not greater.
proof fn lemma_upto_cut<R: Scalar>(order: Seq<(u32, R)>, hi: R, n: nat)
    requires
        ordered(order, n),
    ensures
        rank_upto(order, hi) <= order.len(),
        forall|i: int|
            0 <= i < order.len() ==> (!less(hi, (#[trigger] order[i]).1) <==> i < rank_upto(
                order,
                hi,
            )),
    decreases order.len(),
{
    if order.len() > 0 {
        let t = order.drop_last();
        assert forall|i: int| 0 <= i < t.len() implies t[i] == #[trigger] order[i] by {}
        assert(ordered(t, n)) by {
            assert forall|i: int, j: int| 0 <= i <= j < t.len() implies (
            #[trigger] t[i]).1.key_of() <= (#[trigger] t[j]).1.key_of() by {
                assert(order[i].1.key_of() <= order[j].1.key_of());
            }
            assert forall|i: int| 0 <= i < t.len() implies (#[trigger] t[i]).0 < n by {
                assert(order[i].0 < n);
            }
            assert forall|i: int, j: int| 0 <= i < j < t.len() implies (#[trigger] t[i]).0 != (
            #[trigger] t[j]).0 by {
                assert(order[i].0 != order[j].0);
            }
        }
        lemma_upto_cut(t, hi, n);
        let last = order.len() - 1;
        if !less(hi, order[last].1) {
            assert forall|i: int| 0 <= i < t.len() implies !less(hi, (#[trigger] order[i]).1) by {
                assert(order[i].1.key_of() <= order[last].1.key_of());
            }
            assert(rank_upto(t, hi) == t.len()) by {
                if rank_upto(t, hi) < t.len() {
                    let c = rank_upto(t, hi) as int;
                    assert(!less(hi, order[c].1));
                    assert(t[c] == order[c]);
                }
            }
        }
        assert forall|i: int| 0 <= i < order.len() implies (!less(hi, (#[trigger] order[i]).1) <==> i
            < rank_upto(order, hi)) by {
            if i < t.len() {
                assert(t[i] == order[i]);
            }
        }
    }
}

/// The ranks from `rank_below` to `rank_upto` are those of the keys in the range.
pub proof fn lemma_rank_range<R: Scalar>(order: Seq<(u32, R)>, range: Range<R>, n: nat)
    requires
        ordered(order, n),
    ensures
        rank_upto(order, range.hi) <= order.len(),
        rank_below(order, range.lo) <= order.len(),
        forall|i: int|
            0 <= i < order.len() ==> (range.holds((#[trigger] order[i]).1) <==> rank_below(
                order,
                range.lo,
            ) <= i < rank_upto(order, range.hi)),
{
    lemma_below_cut(order, range.lo, n);
    lemma_upto_cut(order, range.hi, n);
}

/// A hit is the vector with rank `at`, with its distance.
pub open spec fn has_rank<R: Scalar>(plan: Plan<R>, q: Seq<R>, x: (usize, R), at: int) -> bool {
    &&& 0 <= at < plan.order.len()
    &&& plan.order[at].0 == x.0
    &&& x.1 == sq_l2_of(q, plan.vectors[x.0 as int])
}

/// A hit is a vector with a rank from `a` to `b - 1`, with its distance.
pub open spec fn ranks_in<R: Scalar>(
    plan: Plan<R>,
    q: Seq<R>,
    x: (usize, R),
    a: int,
    b: int,
) -> bool {
    exists|at: int| a <= at < b && #[trigger] has_rank(plan, q, x, at)
}

/// The positions of hits are different.
pub open spec fn all_different<R>(found: Seq<(usize, R)>) -> bool {
    forall|i: int, j: int|
        0 <= i < j < found.len() ==> (#[trigger] found[i]).0 != (#[trigger] found[j]).0
}

pub proof fn lemma_part_hits<R: Scalar>(plan: Plan<R>, q: Seq<R>, per: usize, part: Part)
    requires
        ordered(plan.order, plan.vectors.len()),
        plan.order.len() <= u32::MAX,
        part.first() < part.end() <= plan.order.len(),
    ensures
        ({
            let found = part_hits(plan, q, per, part);
            &&& all_different(found)
            &&& per > 0 ==> found.len() > 0
            &&& forall|i: int|
                0 <= i < found.len() ==> ranks_in(
                    plan,
                    q,
                    #[trigger] found[i],
                    part.first(),
                    part.end(),
                )
        }),
{
    let found = part_hits(plan, q, per, part);
    match part {
        Part::Node { idx, lo, hi } => {
            let ids = ids_between(plan.order, lo as int, hi as int);
            assert(ids.no_duplicates()) by {
                assert forall|i: int, j: int|
                    0 <= i < ids.len() && 0 <= j < ids.len() && i != j implies ids[i] != ids[j] by {
                    if i < j {
                        assert(plan.order[lo + i].0 != plan.order[lo + j].0);
                    } else {
                        assert(plan.order[lo + j].0 != plan.order[lo + i].0);
                    }
                }
            }
            lemma_nsw_hits(plan.vectors, ids, plan.params, q, per);
            assert forall|i: int| 0 <= i < found.len() implies ranks_in(
                plan,
                q,
                #[trigger] found[i],
                part.first(),
                part.end(),
            ) by {
                let x = found[i];
                assert(ids.contains(x.0 as u32));
                let j = choose|j: int| 0 <= j < ids.len() && ids[j] == x.0 as u32;
                assert(has_rank(plan, q, x, lo + j));
            }
        },
        Part::Rank { at } => {
            assert forall|i: int| 0 <= i < found.len() implies ranks_in(
                plan,
                q,
                #[trigger] found[i],
                part.first(),
                part.end(),
            ) by {
                assert(has_rank(plan, q, found[i], at as int));
            }
        },
    }
}

pub proof fn lemma_merged<R: Scalar>(
    plan: Plan<R>,
    q: Seq<R>,
    per: usize,
    p: Seq<Part>,
    a: int,
    b: int,
)
    requires
        ordered(plan.order, plan.vectors.len()),
        plan.order.len() <= u32::MAX,
        tiles(p, a, b),
        0 <= a,
        b <= plan.order.len(),
    ensures
        a <= b,
        ({
            let found = merged(plan, q, per, p);
            &&& all_different(found)
            &&& per > 0 && a < b ==> found.len() > 0
            &&& forall|i: int| 0 <= i < found.len() ==> ranks_in(plan, q, #[trigger] found[i], a, b)
        }),
    decreases p.len(),
{
    if p.len() > 0 {
        let x = p.last();
        let m = x.first();
        lemma_merged(plan, q, per, p.drop_last(), a, m);
        lemma_part_hits(plan, q, per, x);
        let one = merged(plan, q, per, p.drop_last());
        let two = part_hits(plan, q, per, x);
        let found = merged(plan, q, per, p);
        assert(found =~= one + two);
        assert forall|i: int| 0 <= i < found.len() implies ranks_in(
            plan,
            q,
            #[trigger] found[i],
            a,
            b,
        ) by {
            if i < one.len() {
                assert(found[i] == one[i]);
                let at = choose|at: int| a <= at < m && #[trigger] has_rank(plan, q, one[i], at);
                assert(has_rank(plan, q, found[i], at));
            } else {
                assert(found[i] == two[i - one.len()]);
                let y = two[i - one.len()];
                let at = choose|at: int| m <= at < b && #[trigger] has_rank(plan, q, y, at);
                assert(has_rank(plan, q, found[i], at));
            }
        }
        assert forall|i: int, j: int| 0 <= i < j < found.len() implies (#[trigger] found[i]).0 != (
        #[trigger] found[j]).0 by {
            if j < one.len() {
                assert(found[i] == one[i] && found[j] == one[j]);
            } else if i >= one.len() {
                assert(found[i] == two[i - one.len()] && found[j] == two[j - one.len()]);
            } else {
                let y = two[j - one.len()];
                assert(found[i] == one[i] && found[j] == y);
                assert(ranks_in(plan, q, one[i], a, m) && ranks_in(plan, q, y, m, b));
                let s = choose|at: int| a <= at < m && #[trigger] has_rank(plan, q, one[i], at);
                let t = choose|at: int| m <= at < b && #[trigger] has_rank(plan, q, y, at);
                assert(plan.order[s].0 != plan.order[t].0);
            }
        }
    }
}

/// The best hits are some of the hits, by ascending distance, and `k` of them or
/// all.
proof fn lemma_best_of<R: Scalar>(found: Seq<(usize, R)>, k: nat)
    requires
        all_different(found),
    ensures
        ({
            let best = best_of(found, k);
            &&& best.len() == lesser(k, found.len())
            &&& all_different(best)
            &&& forall|i: int| 0 <= i < best.len() ==> found.contains(#[trigger] best[i])
            &&& forall|i: int, j: int|
                0 <= i <= j < best.len() ==> (#[trigger] best[i]).1.key_of() <= (
                #[trigger] best[j]).1.key_of()
        }),
{
    let a = by_position(found);
    let sorted = stable_sort(a);
    let listed = payloads(sorted);
    let b = by_distance(listed);
    let order = stable_sort(b);
    let top = top_k(b, k);
    let best = best_of(found, k);
    lemma_stable_sort(a);
    lemma_stable_sort(b);
    lemma_top_k(b, k);
    assert forall|i: int| 0 <= i < listed.len() implies found.contains(#[trigger] listed[i]) by {
        assert(sorted.contains(sorted[i]));
        lemma_stable_sort_contains(a, sorted[i]);
        let j = choose|j: int| 0 <= j < a.len() && a[j] == sorted[i];
        assert(found[j] == listed[i]);
    }
    assert(a.no_duplicates()) by {
        assert forall|i: int, j: int| 0 <= i < a.len() && 0 <= j < a.len() && i != j implies a[i]
            != a[j] by {
            if i < j {
                assert(found[i].0 != found[j].0);
            } else {
                assert(found[j].0 != found[i].0);
            }
        }
    }
    a.lemma_multiset_has_no_duplicates();
    sorted.lemma_multiset_has_no_duplicates_conv();
    assert forall|i: int| 0 <= i < sorted.len() implies (#[trigger] sorted[i]).0
        == sorted[i].1.0 by {
        assert(sorted.contains(sorted[i]));
        lemma_stable_sort_contains(a, sorted[i]);
        let j = choose|j: int| 0 <= j < a.len() && a[j] == sorted[i];
        assert(a[j] == sorted[i]);
    }
    assert(b.no_duplicates()) by {
        assert forall|i: int, j: int| 0 <= i < b.len() && 0 <= j < b.len() && i != j implies b[i]
            != b[j] by {
            assert(sorted[i] != sorted[j]);
            assert(sorted[i].0 == sorted[i].1.0 && sorted[j].0 == sorted[j].1.0);
        }
    }
    b.lemma_multiset_has_no_duplicates();
    order.lemma_multiset_has_no_duplicates_conv();
    assert forall|i: int| 0 <= i < best.len() implies found.contains(#[trigger] best[i])
        && top[i].0 == best[i].1.key_of() by {
        assert(b.contains(top[i]));
        let j = choose|j: int| 0 <= j < b.len() && b[j] == top[i];
        assert(listed[j] == best[i]);
    }
    assert forall|i: int, j: int| 0 <= i <= j < best.len() implies (
    #[trigger] best[i]).1.key_of() <= (#[trigger] best[j]).1.key_of() by {
        assert(top[i].0 <= top[j].0);
    }
    assert forall|i: int, j: int| 0 <= i < j < best.len() implies (#[trigger] best[i]).0 != (
    #[trigger] best[j]).0 by {
        assert(order[i] != order[j]);
        assert(best[i] != best[j]);
        let x = choose|x: int| 0 <= x < found.len() && found[x] == best[i];
        let y = choose|y: int| 0 <= y < found.len() && found[y] == best[j];
        if x < y {
            assert(found[x].0 != found[y].0);
        } else if y < x {
            assert(found[y].0 != found[x].0);
        }
    }
}

/// What a search finds: vectors whose key lies in the range, each once and with
/// its distance, by ascending distance, and `k` of them at most. It finds one if
/// there is any.
pub proof fn lemma_segment_hits<R: Scalar>(
    plan: Plan<R>,
    keys: Seq<R>,
    q: Seq<R>,
    range: Range<R>,
    k: usize,
)
    requires
        plan.vectors.len() == keys.len() <= u32::MAX,
        plan.order == key_order(keys),
        4 * keys.len() <= usize::MAX,
    ensures
        ({
            let found = segment_hits(plan, tree_width(keys.len(), 1), q, range, k);
            &&& found.len() <= k
            &&& all_different(found)
            &&& forall|i: int|
                0 <= i < found.len() ==> {
                    let x = #[trigger] found[i];
                    &&& x.0 < plan.vectors.len()
                    &&& range.holds(keys[x.0 as int])
                    &&& x.1 == sq_l2_of(q, plan.vectors[x.0 as int])
                }
            &&& forall|i: int, j: int|
                0 <= i <= j < found.len() ==> (#[trigger] found[i]).1.key_of() <= (
                #[trigger] found[j]).1.key_of()
            &&& k > 0 && rank_below(plan.order, range.lo) < rank_upto(plan.order, range.hi)
                ==> found.len() > 0
        }),
{
    let n = keys.len();
    let width = tree_width(n, 1);
    let rl = rank_below(plan.order, range.lo);
    let rr = rank_upto(plan.order, range.hi);
    let found = segment_hits(plan, width, q, range, k);
    lemma_key_order(keys);
    lemma_rank_range(plan.order, range, n);
    lemma_tree_width(n, 1);
    if rl < rr {
        assert forall|x: (usize, R)| #[trigger]
            ranks_in(plan, q, x, rl as int, rr as int) implies x.0 < plan.vectors.len()
            && range.holds(keys[x.0 as int]) && x.1 == sq_l2_of(q, plan.vectors[x.0 as int]) by {
            let at = choose|at: int|
                rl as int <= at < rr as int && #[trigger] has_rank(plan, q, x, at);
            assert(range.holds(plan.order[at].1));
            assert(plan.order[at].1 == keys[plan.order[at].0 as int]);
        }
        if rr - rl <= plan.leaf {
            let all = direct(plan, q, rl as int, rr as int);
            let raw = payloads(all);
            let top = top_k(all, k as nat);
            lemma_top_k(all, k as nat);
            assert forall|i: int| 0 <= i < top.len() implies {
                let x = #[trigger] top[i];
                x.0 == x.1.1.key_of() && ranks_in(plan, q, x.1, rl as int, rr as int)
            } by {
                assert(all.contains(top[i]));
                let j = choose|j: int| 0 <= j < all.len() && all[j] == top[i];
                assert(has_rank(plan, q, top[i].1, rl + j));
            }
            assert forall|i: int| 0 <= i < found.len() implies ranks_in(
                plan,
                q,
                #[trigger] found[i],
                rl as int,
                rr as int,
            ) by {
                assert(top[i].1 == found[i]);
            }
            assert forall|i: int, j: int| 0 <= i <= j < found.len() implies (
            #[trigger] found[i]).1.key_of() <= (#[trigger] found[j]).1.key_of() by {
                assert(top[i].0 <= top[j].0);
            }
            let order = stable_sort(all);
            lemma_stable_sort(all);
            assert(all.no_duplicates()) by {
                assert forall|i: int, j: int|
                    0 <= i < all.len() && 0 <= j < all.len() && i != j implies all[i] != all[j] by {
                    if i < j {
                        assert(plan.order[rl + i].0 != plan.order[rl + j].0);
                    } else {
                        assert(plan.order[rl + j].0 != plan.order[rl + i].0);
                    }
                }
            }
            all.lemma_multiset_has_no_duplicates();
            order.lemma_multiset_has_no_duplicates_conv();
            assert forall|i: int, j: int| 0 <= i < j < found.len() implies (
            #[trigger] found[i]).0 != (#[trigger] found[j]).0 by {
                assert(order[i] != order[j]);
                assert(top[i] == order[i] && top[j] == order[j]);
                assert(top[i].1 == found[i] && top[j].1 == found[j]);
                assert(ranks_in(plan, q, found[i], rl as int, rr as int));
                assert(ranks_in(plan, q, found[j], rl as int, rr as int));
            }
        } else {
            let p = parts(n, plan.leaf, 1, 0, width, rl, rr);
            let per = per_node(plan.params, k);
            let all = merged(plan, q, per, p);
            lemma_parts(n, plan.leaf, 1, 0, width, rl, rr);
            lemma_merged(plan, q, per, p, rl as int, rr as int);
            lemma_best_of(all, k as nat);
            assert forall|i: int| 0 <= i < found.len() implies ranks_in(
                plan,
                q,
                #[trigger] found[i],
                rl as int,
                rr as int,
            ) by {
                assert(all.contains(found[i]));
                let j = choose|j: int| 0 <= j < all.len() && all[j] == found[i];
                assert(ranks_in(plan, q, all[j], rl as int, rr as int));
            }
        }
    }
}

/// The width of a tree is a power of two with room for every rank, and less than
/// twice the number of ranks where it is not one.
pub proof fn lemma_tree_width(n: nat, w: nat)
    requires
        is_power(w),
        w == 1 || w < 2 * n,
    ensures
        is_power(tree_width(n, w)),
        n <= tree_width(n, w),
        tree_width(n, w) == 1 || tree_width(n, w) < 2 * n,
    decreases
            if w < n {
                n - w
            } else {
                0
            },
{
    if w < n {
        assert(is_power(2 * w)) by {
            assert((2 * w) / 2 == w);
        }
        lemma_tree_width(n, 2 * w);
    }
}

/// A range is taken apart completely: every rank in it is in one part, under a
/// graph that is searched or on its own.
pub proof fn lemma_range_covered<R: Scalar>(
    plan: Plan<R>,
    keys: Seq<R>,
    range: Range<R>,
)
    requires
        keys.len() <= u32::MAX,
        plan.order == key_order(keys),
        4 * keys.len() <= usize::MAX,
        rank_below(plan.order, range.lo) < rank_upto(plan.order, range.hi),
    ensures
        tiles(
            parts(
                keys.len(),
                plan.leaf,
                1,
                0,
                tree_width(keys.len(), 1),
                rank_below(plan.order, range.lo),
                rank_upto(plan.order, range.hi),
            ),
            rank_below(plan.order, range.lo) as int,
            rank_upto(plan.order, range.hi) as int,
        ),
{
    lemma_key_order(keys);
    lemma_rank_range(plan.order, range, keys.len());
    lemma_tree_width(keys.len(), 1);
    lemma_parts(
        keys.len(),
        plan.leaf,
        1,
        0,
        tree_width(keys.len(), 1),
        rank_below(plan.order, range.lo),
        rank_upto(plan.order, range.hi),
    );
}

} // verus!
