//! Paths through an adjacency list.

use vstd::prelude::*;

verus! {

/// `to` is a neighbour of `from`.
pub open spec fn edge(adj: Seq<Seq<u32>>, from: u32, to: u32) -> bool {
    from < adj.len() && adj[from as int].contains(to)
}

/// Consecutive nodes are neighbours.
pub open spec fn is_path(adj: Seq<Seq<u32>>, path: Seq<u32>) -> bool {
    path.len() > 0 && forall|i: int|
        0 <= i < path.len() - 1 ==> edge(adj, #[trigger] path[i], path[i + 1])
}

/// A path from `from` to `to`.
pub open spec fn leads(adj: Seq<Seq<u32>>, path: Seq<u32>, from: u32, to: u32) -> bool {
    is_path(adj, path) && path[0] == from && path.last() == to
}

/// Some path leads from `from` to `to`.
pub open spec fn reachable(adj: Seq<Seq<u32>>, from: u32, to: u32) -> bool {
    exists|path: Seq<u32>| leads(adj, path, from, to)
}

/// Every edge of `a` is an edge of `b`.
pub open spec fn subgraph(a: Seq<Seq<u32>>, b: Seq<Seq<u32>>) -> bool {
    forall|x: u32, y: u32| #[trigger] edge(a, x, y) ==> edge(b, x, y)
}

/// Every node is reachable from itself.
pub proof fn lemma_reach_self(adj: Seq<Seq<u32>>, a: u32)
    ensures
        reachable(adj, a, a),
{
    assert(leads(adj, seq![a], a, a));
}

/// A path goes on along an edge.
pub proof fn lemma_reach_step(adj: Seq<Seq<u32>>, a: u32, b: u32, c: u32)
    requires
        reachable(adj, a, b),
        edge(adj, b, c),
    ensures
        reachable(adj, a, c),
{
    let p = choose|p: Seq<u32>| leads(adj, p, a, b);
    let q = p.push(c);
    assert forall|i: int| 0 <= i < q.len() - 1 implies edge(adj, #[trigger] q[i], q[i + 1]) by {
        if i < p.len() - 1 {
            assert(edge(adj, p[i], p[i + 1]));
        }
    }
    assert(leads(adj, q, a, c));
}

/// More edges keep what was reachable.
pub proof fn lemma_reach_subgraph(a: Seq<Seq<u32>>, b: Seq<Seq<u32>>, from: u32, to: u32)
    requires
        subgraph(a, b),
        reachable(a, from, to),
    ensures
        reachable(b, from, to),
{
    let p = choose|p: Seq<u32>| leads(a, p, from, to);
    assert forall|i: int| 0 <= i < p.len() - 1 implies edge(b, #[trigger] p[i], p[i + 1]) by {
        assert(edge(a, p[i], p[i + 1]));
    }
    assert(leads(b, p, from, to));
}

/// A set that every edge stays in holds what is reachable from its members.
pub proof fn lemma_reach_closed(adj: Seq<Seq<u32>>, s: Set<u32>, from: u32, to: u32)
    requires
        s.contains(from),
        forall|x: u32, y: u32| s.contains(x) && #[trigger] edge(adj, x, y) ==> s.contains(y),
        reachable(adj, from, to),
    ensures
        s.contains(to),
{
    let p = choose|p: Seq<u32>| leads(adj, p, from, to);
    lemma_path_closed(adj, s, p, p.len() - 1);
}

proof fn lemma_path_closed(adj: Seq<Seq<u32>>, s: Set<u32>, p: Seq<u32>, i: int)
    requires
        is_path(adj, p),
        s.contains(p[0]),
        forall|x: u32, y: u32| s.contains(x) && #[trigger] edge(adj, x, y) ==> s.contains(y),
        0 <= i < p.len(),
    ensures
        s.contains(p[i]),
    decreases i,
{
    if i > 0 {
        lemma_path_closed(adj, s, p, i - 1);
        assert(edge(adj, p[i - 1], p[i - 1 + 1]));
    }
}

} // verus!
