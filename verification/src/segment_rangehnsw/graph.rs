//! Single-layer proximity graph with greedy beam search.
//!
//! Nodes are inserted one by one. Each is joined to the nodes that a beam
//! search from the entry node finds nearest.

use vstd::prelude::*;

use crate::beam::{
    is_graph, lemma_few_others, listed_below, search_from, search_one, Nodes, Rules, Space,
};
use crate::beam_laws::lemma_search_from;
use crate::bytes::{
    bytes_for, cells, clamped, fits, held, lemma_room_total_add, lemma_room_total_push,
    lemma_rooms_fit, room, rooms_fit, rooms_of,
};
use crate::metric::Distance;
use crate::reach::{
    edge, lemma_reach_closed, lemma_reach_self, lemma_reach_step, lemma_reach_subgraph, reachable,
    subgraph,
};
use crate::sorting::{ascending, first_n};
use crate::spaces::{
    excluding, in_window, lemma_nearest, nearest, select_nearest, Excluding, InWindow,
};
use crate::table::{empty_rows, holds, rows};

verus! {

/// The search for the nodes nearest to a query: frontier and results take a
/// node that is nearer than the worst result; the smaller number wins.
pub open spec fn closest(ef: usize) -> Rules {
    Rules { ef, selective: true, contested: false, high_first: false, high_wins: false }
}

/// As `closest`, but every node is walked through.
pub open spec fn thorough(ef: usize) -> Rules {
    Rules { ef, selective: false, contested: false, high_first: false, high_wins: false }
}

/// The rules that `closest` states.
fn closest_rules(ef: usize) -> (r: Rules)
    ensures
        r == closest(ef),
{
    Rules { ef, selective: true, contested: false, high_first: false, high_wins: false }
}

/// The list of `a` with `b` at its end, if it was not in it.
pub open spec fn with_edge(adj: Seq<Seq<u32>>, a: u32, b: u32) -> Seq<Seq<u32>> {
    if adj[a as int].contains(b) {
        adj
    } else {
        adj.update(a as int, adj[a as int].push(b))
    }
}

/// A list that has become longer than `2 * m` is cut to the `m + 1` nearest.
pub open spec fn pruned(nodes: Nodes, list: Seq<u32>, m: nat) -> Seq<u32> {
    if list.len() > 2 * m {
        nearest(nodes, list, m + 1)
    } else {
        list
    }
}

/// Node `i` as its neighbours see it.
pub open spec fn around<T, D: Distance<T>>(metric: D, vectors: Seq<Seq<T>>, i: u32) -> Nodes {
    excluding(metric, vectors[i as int], vectors, Seq::empty())
}

/// The graph after new node `i` was joined to node `nb`.
pub open spec fn joined<T, D: Distance<T>>(
    metric: D,
    vectors: Seq<Seq<T>>,
    adj: Seq<Seq<u32>>,
    i: u32,
    nb: u32,
    m: nat,
) -> Seq<Seq<u32>> {
    let there = with_edge(adj, i, nb);
    let list = there[nb as int];
    if list.contains(i) {
        there
    } else {
        there.update(nb as int, pruned(around(metric, vectors, nb), list.push(i), m))
    }
}

/// The graph after new node `i` was joined to each of `chosen`.
pub open spec fn joined_all<T, D: Distance<T>>(
    metric: D,
    vectors: Seq<Seq<T>>,
    adj: Seq<Seq<u32>>,
    i: u32,
    chosen: Seq<(u64, u32)>,
    m: nat,
) -> Seq<Seq<u32>>
    decreases chosen.len(),
{
    if chosen.len() == 0 {
        adj
    } else {
        joined(
            metric,
            vectors,
            joined_all(metric, vectors, adj, i, chosen.drop_last(), m),
            i,
            chosen.last().1,
            m,
        )
    }
}

/// The nodes that new node `i` is joined to.
pub open spec fn chosen_for<T, D: Distance<T>>(
    metric: D,
    vectors: Seq<Seq<T>>,
    adj: Seq<Seq<u32>>,
    i: u32,
    m: nat,
    ef: usize,
) -> Seq<(u64, u32)> {
    first_n(
        search_from(excluding(metric, vectors[i as int], vectors, seq![i]), closest(ef), adj, 0),
        m,
    )
}

/// The graph after the first `count` nodes were inserted.
pub open spec fn grown<T, D: Distance<T>>(
    metric: D,
    vectors: Seq<Seq<T>>,
    m: nat,
    ef: usize,
    count: nat,
) -> Seq<Seq<u32>>
    decreases count,
{
    if count <= 1 {
        Seq::new(vectors.len(), |i: int| Seq::empty())
    } else {
        let adj = grown(metric, vectors, m, ef, (count - 1) as nat);
        let i = (count - 1) as u32;
        joined_all(metric, vectors, adj, i, chosen_for(metric, vectors, adj, i, m, ef), m)
    }
}

/// No list is longer than `2 * m`, holds its own node or a node twice.
pub open spec fn tidy(adj: Seq<Seq<u32>>, m: nat) -> bool {
    forall|a: int|
        0 <= a < adj.len() ==> {
            let list = #[trigger] adj[a];
            &&& list.len() <= 2 * m
            &&& list.no_duplicates()
            &&& !list.contains(a as u32)
        }
}

proof fn lemma_joined<T, D: Distance<T>>(
    metric: D,
    vectors: Seq<Seq<T>>,
    adj: Seq<Seq<u32>>,
    i: u32,
    nb: u32,
    m: nat,
)
    requires
        is_graph(adj, vectors.len()),
        tidy(adj, m),
        i < vectors.len(),
        nb < vectors.len(),
        i != nb,
        m > 0,
        adj[i as int].len() < 2 * m,
    ensures
        is_graph(joined(metric, vectors, adj, i, nb, m), vectors.len()),
        tidy(joined(metric, vectors, adj, i, nb, m), m),
        joined(metric, vectors, adj, i, nb, m)[i as int].len() <= adj[i as int].len() + 1,
{
    let n = vectors.len();
    let there = with_edge(adj, i, nb);
    assert(is_graph(there, n)) by {
        assert forall|a: int| 0 <= a < n implies listed_below(#[trigger] there[a], n) by {
            assert(listed_below(adj[a], n));
        }
    }
    assert(tidy(there, m)) by {
        assert forall|a: int| 0 <= a < n implies {
            let list = #[trigger] there[a];
            &&& list.len() <= 2 * m
            &&& list.no_duplicates()
            &&& !list.contains(a as u32)
        } by {
            let old_list = adj[a];
            assert(old_list.len() <= 2 * m);
            if a == i && !old_list.contains(nb) {
                assert(there[a] == old_list.push(nb));
                assert forall|x: int| 0 <= x < there[a].len() implies there[a][x] != i by {
                    if x < old_list.len() {
                        assert(old_list.contains(old_list[x]));
                    }
                }
            }
        }
    }
    let list = there[nb as int];
    let out = joined(metric, vectors, adj, i, nb, m);
    if !list.contains(i) {
        let grown_list = list.push(i);
        let nodes = around(metric, vectors, nb);
        assert(list.len() <= 2 * m);
        assert(listed_below(list, n));
        lemma_nearest(nodes, grown_list, m + 1);
        let cut = pruned(nodes, grown_list, m);
        assert(grown_list.no_duplicates());
        assert(!grown_list.contains(nb)) by {
            assert(!list.contains(nb));
            assert forall|x: int| 0 <= x < grown_list.len() implies grown_list[x] != nb by {
                if x < list.len() {
                    assert(list.contains(list[x]));
                }
            }
        }
        assert(listed_below(grown_list, n));
        assert(cut.len() <= 2 * m);
        assert forall|x: int| 0 <= x < cut.len() implies (#[trigger] cut[x]) < n && cut[x]
            != nb by {
            if grown_list.len() > 2 * m {
                assert(grown_list.contains(cut[x]));
                let y = choose|y: int| 0 <= y < grown_list.len() && grown_list[y] == cut[x];
                assert(grown_list[y] < n);
            } else {
                assert(grown_list[x] == cut[x]);
                assert(grown_list.contains(cut[x]));
            }
        }
        assert(cut.no_duplicates());
        assert forall|a: int| 0 <= a < n implies listed_below(#[trigger] out[a], n) by {
            assert(listed_below(there[a], n));
        }
        assert forall|a: int| 0 <= a < n implies {
            let list = #[trigger] out[a];
            &&& list.len() <= 2 * m
            &&& list.no_duplicates()
            &&& !list.contains(a as u32)
        } by {
            assert(there[a].len() <= 2 * m);
            if a == nb {
                assert(out[a] == cut);
            } else {
                assert(out[a] == there[a]);
            }
        }
    }
}

proof fn lemma_joined_all<T, D: Distance<T>>(
    metric: D,
    vectors: Seq<Seq<T>>,
    adj: Seq<Seq<u32>>,
    i: u32,
    chosen: Seq<(u64, u32)>,
    m: nat,
)
    requires
        is_graph(adj, vectors.len()),
        tidy(adj, m),
        i < vectors.len(),
        adj[i as int].len() + chosen.len() <= 2 * m,
        forall|j: int|
            0 <= j < chosen.len() ==> (#[trigger] chosen[j]).1 < vectors.len() && chosen[j].1 != i,
    ensures
        is_graph(joined_all(metric, vectors, adj, i, chosen, m), vectors.len()),
        tidy(joined_all(metric, vectors, adj, i, chosen, m), m),
        joined_all(metric, vectors, adj, i, chosen, m)[i as int].len() <= adj[i as int].len()
            + chosen.len(),
    decreases chosen.len(),
{
    if chosen.len() > 0 {
        let t = chosen.drop_last();
        assert forall|j: int| 0 <= j < t.len() implies (#[trigger] t[j]).1 < vectors.len() && t[j].1
            != i by {
            assert(t[j] == chosen[j]);
        }
        lemma_joined_all(metric, vectors, adj, i, t, m);
        assert(chosen[chosen.len() - 1].1 != i);
        lemma_joined(
            metric,
            vectors,
            joined_all(metric, vectors, adj, i, t, m),
            i,
            chosen.last().1,
            m,
        );
    }
}

/// A node is joined to other nodes, and to `m` of them at most.
proof fn lemma_chosen<T, D: Distance<T>>(
    metric: D,
    vectors: Seq<Seq<T>>,
    adj: Seq<Seq<u32>>,
    i: u32,
    m: nat,
    ef: usize,
)
    requires
        is_graph(adj, vectors.len()),
        i < vectors.len(),
    ensures
        forall|j: int|
            0 <= j < chosen_for(metric, vectors, adj, i, m, ef).len() ==> {
                let c = (#[trigger] chosen_for(metric, vectors, adj, i, m, ef)[j]).1;
                c < vectors.len() && c != i
            },
        chosen_for(metric, vectors, adj, i, m, ef).len() <= m,
{
    let nodes = excluding(metric, vectors[i as int], vectors, seq![i]);
    lemma_search_from(nodes, closest(ef), adj, 0);
    let found = search_from(nodes, closest(ef), adj, 0);
    let chosen = chosen_for(metric, vectors, adj, i, m, ef);
    assert forall|j: int| 0 <= j < chosen.len() implies {
        let c = (#[trigger] chosen[j]).1;
        c < vectors.len() && c != i
    } by {
        assert(chosen[j] == found[j]);
        assert(nodes.admits(found[j].1));
        assert(seq![i].contains(seq![i][0]));
    }
}

/// Only nodes below `c` have neighbours, and these are below `c`.
spec fn within(adj: Seq<Seq<u32>>, c: nat) -> bool {
    forall|a: int| 0 <= a < adj.len() ==> listed_below(#[trigger] adj[a], c) && (a >= c ==> adj[a].len() == 0)
}

proof fn lemma_joined_within<T, D: Distance<T>>(
    metric: D,
    vectors: Seq<Seq<T>>,
    adj: Seq<Seq<u32>>,
    i: u32,
    chosen: Seq<(u64, u32)>,
    m: nat,
    c: nat,
)
    requires
        adj.len() == vectors.len(),
        within(adj, c),
        i < c <= vectors.len(),
        forall|j: int| 0 <= j < chosen.len() ==> (#[trigger] chosen[j]).1 < c,
    ensures
        within(joined_all(metric, vectors, adj, i, chosen, m), c),
        joined_all(metric, vectors, adj, i, chosen, m).len() == adj.len(),
    decreases chosen.len(),
{
    if chosen.len() > 0 {
        let t = chosen.drop_last();
        assert forall|j: int| 0 <= j < t.len() implies (#[trigger] t[j]).1 < c by {
            assert(t[j] == chosen[j]);
        }
        lemma_joined_within(metric, vectors, adj, i, t, m, c);
        let b = joined_all(metric, vectors, adj, i, t, m);
        let nb = chosen[chosen.len() - 1].1;
        assert(nb < c);
        let there = with_edge(b, i, nb);
        assert(within(there, c)) by {
            assert forall|a: int| 0 <= a < there.len() implies listed_below(#[trigger] there[a], c)
                && (a >= c ==> there[a].len() == 0) by {
                assert(listed_below(b[a], c));
            }
        }
        let list = there[nb as int];
        let longer = list.push(i);
        let nodes = around(metric, vectors, nb);
        lemma_nearest(nodes, longer, m + 1);
        let cut = pruned(nodes, longer, m);
        assert(listed_below(list, c));
        assert(listed_below(cut, c)) by {
            assert forall|x: int| 0 <= x < cut.len() implies (#[trigger] cut[x]) < c by {
                if longer.len() > 2 * m {
                    assert(longer.contains(cut[x]));
                    let y = choose|y: int| 0 <= y < longer.len() && longer[y] == cut[x];
                    if y < list.len() {
                        assert(list[y] < c);
                    }
                } else if x < list.len() {
                    assert(list[x] < c);
                }
            }
        }
        let out = joined(metric, vectors, b, i, nb, m);
        assert forall|a: int| 0 <= a < out.len() implies listed_below(#[trigger] out[a], c) && (a
            >= c ==> out[a].len() == 0) by {
            assert(listed_below(there[a], c));
            if a == nb && !list.contains(i) {
                assert(out[a] == cut);
            } else {
                assert(out[a] == there[a]);
            }
        }
    }
}

/// What building keeps: neighbours exist, no list is longer than `2 * m`, no
/// node is its own neighbour, and none is listed twice.
pub proof fn lemma_grown<T, D: Distance<T>>(
    metric: D,
    vectors: Seq<Seq<T>>,
    m: nat,
    ef: usize,
    count: nat,
)
    requires
        count <= vectors.len() <= 0x1_0000_0000,
    ensures
        is_graph(grown(metric, vectors, m, ef, count), vectors.len()),
        tidy(grown(metric, vectors, m, ef, count), m),
{
    if vectors.len() > 0 {
        lemma_grown_within(
            metric,
            vectors,
            m,
            ef,
            if count == 0 {
                1
            } else {
                count
            },
        );
    }
}

proof fn lemma_grown_within<T, D: Distance<T>>(
    metric: D,
    vectors: Seq<Seq<T>>,
    m: nat,
    ef: usize,
    count: nat,
)
    requires
        1 <= count <= vectors.len() <= 0x1_0000_0000,
    ensures
        is_graph(grown(metric, vectors, m, ef, count), vectors.len()),
        tidy(grown(metric, vectors, m, ef, count), m),
        within(grown(metric, vectors, m, ef, count), count),
    decreases count,
{
    if count > 1 {
        let c = (count - 1) as nat;
        lemma_grown_within(metric, vectors, m, ef, c);
        let adj = grown(metric, vectors, m, ef, c);
        let i = c as u32;
        let chosen = chosen_for(metric, vectors, adj, i, m, ef);
        lemma_chosen(metric, vectors, adj, i, m, ef);
        let nodes = excluding(metric, vectors[i as int], vectors, seq![i]);
        lemma_search_from(nodes, closest(ef), adj, 0);
        let found = search_from(nodes, closest(ef), adj, 0);
        let low = Set::new(|x: u32| x < c);
        assert forall|j: int| 0 <= j < chosen.len() implies (#[trigger] chosen[j]).1 < c by {
            assert(chosen[j] == found[j]);
            assert forall|x: u32, y: u32| low.contains(x) && #[trigger] edge(
                adj,
                x,
                y,
            ) implies low.contains(y) by {
                let list = adj[x as int];
                let z = choose|z: int| 0 <= z < list.len() && list[z] == y;
                assert(list[z] < c);
            }
            lemma_reach_closed(adj, low, 0, found[j].1);
        }
        assert(adj[i as int].len() == 0);
        lemma_joined_all(metric, vectors, adj, i, chosen, m);
        assert(within(adj, count)) by {
            assert forall|a: int| 0 <= a < adj.len() implies listed_below(#[trigger] adj[a], count)
                && (a >= count ==> adj[a].len() == 0) by {
                assert(listed_below(adj[a], c));
            }
        }
        lemma_joined_within(metric, vectors, adj, i, chosen, m, count);
    }
}

/// Where no list can become too long, joining a node keeps every edge and adds
/// one that leads to it.
proof fn lemma_joined_keeps<T, D: Distance<T>>(
    metric: D,
    vectors: Seq<Seq<T>>,
    adj: Seq<Seq<u32>>,
    i: u32,
    nb: u32,
    m: nat,
)
    requires
        is_graph(adj, vectors.len()),
        tidy(adj, m),
        i < vectors.len(),
        nb < vectors.len(),
        i != nb,
        vectors.len() <= 2 * m + 1,
    ensures
        subgraph(adj, joined(metric, vectors, adj, i, nb, m)),
        edge(joined(metric, vectors, adj, i, nb, m), nb, i),
{
    let n = vectors.len();
    let there = with_edge(adj, i, nb);
    let out = joined(metric, vectors, adj, i, nb, m);
    let list = adj[nb as int];
    assert(there[nb as int] == list);
    assert(list.no_duplicates() && !list.contains(nb));
    assert(listed_below(list, n));
    let longer = list.push(i);
    assert(longer[list.len() as int] == i);
    if !list.contains(i) {
        assert(!longer.contains(nb)) by {
            assert forall|x: int| 0 <= x < longer.len() implies longer[x] != nb by {
                if x < list.len() {
                    assert(list.contains(list[x]));
                }
            }
        }
        assert(longer.no_duplicates()) by {
            assert forall|x: int, y: int|
                0 <= x < longer.len() && 0 <= y < longer.len() && x != y implies longer[x]
                != longer[y] by {
                if x == list.len() {
                    assert(list.contains(list[y]));
                } else if y == list.len() {
                    assert(list.contains(list[x]));
                }
            }
        }
        lemma_few_others(longer, nb, n);
        assert(out[nb as int] == longer);
    }
    assert forall|x: u32, y: u32| #[trigger] edge(adj, x, y) implies edge(out, x, y) by {
        let old_list = adj[x as int];
        let z = choose|z: int| 0 <= z < old_list.len() && old_list[z] == y;
        assert(out[x as int][z] == y);
    }
}

proof fn lemma_joined_all_keeps<T, D: Distance<T>>(
    metric: D,
    vectors: Seq<Seq<T>>,
    adj: Seq<Seq<u32>>,
    i: u32,
    chosen: Seq<(u64, u32)>,
    m: nat,
)
    requires
        is_graph(adj, vectors.len()),
        tidy(adj, m),
        i < vectors.len(),
        adj[i as int].len() + chosen.len() <= 2 * m,
        vectors.len() <= 2 * m + 1,
        forall|j: int|
            0 <= j < chosen.len() ==> (#[trigger] chosen[j]).1 < vectors.len() && chosen[j].1 != i,
    ensures
        subgraph(adj, joined_all(metric, vectors, adj, i, chosen, m)),
        forall|j: int|
            0 <= j < chosen.len() ==> edge(
                joined_all(metric, vectors, adj, i, chosen, m),
                (#[trigger] chosen[j]).1,
                i,
            ),
    decreases chosen.len(),
{
    if chosen.len() > 0 {
        let t = chosen.drop_last();
        assert forall|j: int| 0 <= j < t.len() implies (#[trigger] t[j]).1 < vectors.len() && t[j].1
            != i by {
            assert(t[j] == chosen[j]);
        }
        lemma_joined_all_keeps(metric, vectors, adj, i, t, m);
        lemma_joined_all(metric, vectors, adj, i, t, m);
        let b = joined_all(metric, vectors, adj, i, t, m);
        let out = joined_all(metric, vectors, adj, i, chosen, m);
        assert(chosen[chosen.len() - 1].1 != i);
        lemma_joined_keeps(metric, vectors, b, i, chosen.last().1, m);
        assert forall|x: u32, y: u32| #[trigger] edge(adj, x, y) implies edge(out, x, y) by {
            assert(edge(b, x, y));
        }
        assert forall|j: int| 0 <= j < chosen.len() implies edge(out, (#[trigger] chosen[j]).1, i) by {
            if j < t.len() {
                assert(edge(b, t[j].1, i));
            }
        }
    }
}

/// In a graph of no more than `2 * m + 1` nodes, the first node leads to every
/// node that was inserted.
pub proof fn lemma_grown_connected<T, D: Distance<T>>(
    metric: D,
    vectors: Seq<Seq<T>>,
    m: nat,
    ef: usize,
    count: nat,
    id: u32,
)
    requires
        id < count <= vectors.len() <= 0x1_0000_0000,
        vectors.len() <= 2 * m + 1,
        m >= 1,
        ef >= 1,
    ensures
        reachable(grown(metric, vectors, m, ef, count), 0, id),
    decreases count,
{
    if count <= 1 {
        lemma_reach_self(grown(metric, vectors, m, ef, count), 0);
    } else {
        let c = (count - 1) as nat;
        let adj = grown(metric, vectors, m, ef, c);
        let out = grown(metric, vectors, m, ef, count);
        let i = c as u32;
        let chosen = chosen_for(metric, vectors, adj, i, m, ef);
        lemma_grown_within(metric, vectors, m, ef, c);
        lemma_chosen(metric, vectors, adj, i, m, ef);
        assert(adj[i as int].len() == 0);
        lemma_joined_all_keeps(metric, vectors, adj, i, chosen, m);
        if id < c {
            lemma_grown_connected(metric, vectors, m, ef, c, id);
            lemma_reach_subgraph(adj, out, 0, id);
        } else {
            let nodes = excluding(metric, vectors[i as int], vectors, seq![i]);
            lemma_search_from(nodes, closest(ef), adj, 0);
            let found = search_from(nodes, closest(ef), adj, 0);
            assert(nodes.admits(0));
            assert(chosen.len() > 0 && chosen[0] == found[0]);
            assert(reachable(adj, 0, found[0].1));
            lemma_reach_subgraph(adj, out, 0, chosen[0].1);
            lemma_reach_step(out, 0, chosen[0].1, i);
        }
    }
}

/// A graph over vectors. Node `i` stands for vector `i`.
pub struct Graph<T, D> {
    pub m: usize,
    pub ef_construction: usize,
    /// Adjacency lists, by node.
    pub neighbors: Vec<Vec<u32>>,
    pub vectors: Vec<Vec<T>>,
    /// The caller's number of each node.
    pub global_ids: Vec<u32>,
    /// The range key of each node.
    pub keys: Vec<u64>,
    pub metric: D,
}

/// The node that every search starts from.
pub const ENTRY: u32 = 0;

/// A hit: distance, the caller's number, and range key.
pub type Hit = (u64, u32, u64);

/// The hits that nodes stand for.
pub open spec fn as_hits(found: Seq<(u64, u32)>, global_ids: Seq<u32>, keys: Seq<u64>) -> Seq<Hit> {
    Seq::new(
        found.len(),
        |i: int| (found[i].0, global_ids[found[i].1 as int], keys[found[i].1 as int]),
    )
}

impl<T: Copy, D: Distance<T>> Graph<T, D> {
    /// The neighbours exist, and each node has a number and a key.
    pub open spec fn wf(&self) -> bool {
        &&& is_graph(rows(self.neighbors@), self.vectors@.len())
        &&& self.global_ids@.len() == self.vectors@.len()
        &&& self.keys@.len() == self.vectors@.len()
    }

    /// Builds the graph.
    pub fn build(
        vectors: Vec<Vec<T>>,
        global_ids: Vec<u32>,
        keys: Vec<u64>,
        m: usize,
        ef_construction: usize,
        metric: D,
    ) -> (g: Self)
        requires
            vectors@.len() <= 0x1_0000_0000,
        ensures
            g.vectors == vectors,
            g.global_ids == global_ids,
            g.keys == keys,
            g.m == m,
            g.ef_construction == ef_construction,
            g.metric == metric,
            rows(g.neighbors@) == grown(
                metric,
                rows(vectors@),
                m as nat,
                ef_construction,
                vectors@.len(),
            ),
            is_graph(rows(g.neighbors@), vectors@.len()),
            tidy(rows(g.neighbors@), m as nat),
            global_ids@.len() == vectors@.len() && keys@.len() == vectors@.len() ==> g.wf(),
    {
        let n: usize = vectors.len();
        let mut neighbors: Vec<Vec<u32>> = empty_rows(n);
        let ghost vecs = rows(vectors@);
        if n > 0 {
            let mut i: usize = 1;
            while i < n
                invariant
                    1 <= i <= n,
                    n == vectors@.len(),
                    n <= 0x1_0000_0000,
                    vecs == rows(vectors@),
                    rows(neighbors@) == grown(metric, vecs, m as nat, ef_construction, i as nat),
                decreases n - i,
            {
                let ghost adj = rows(neighbors@);
                let i_u: u32 = i as u32;
                proof {
                    lemma_grown(metric, vecs, m as nat, ef_construction, i as nat);
                    assert(vecs[i as int] == vectors@[i as int]@);
                }
                let own = [i_u];
                let space = Excluding {
                    metric: &metric,
                    q: vectors[i].as_slice(),
                    vectors: &vectors,
                    excluded: &own,
                };
                assert(own@ =~= seq![i_u]);
                let found = search_one(&space, closest_rules(ef_construction), &neighbors, ENTRY);
                let ghost chosen = chosen_for(metric, vecs, adj, i_u, m as nat, ef_construction);
                proof {
                    lemma_chosen(metric, vecs, adj, i_u, m as nat, ef_construction);
                }
                let count: usize = if m < found.len() {
                    m
                } else {
                    found.len()
                };
                let mut j: usize = 0;
                assert(chosen.take(0) =~= Seq::empty());
                while j < count
                    invariant
                        1 <= i < n,
                        n == vectors@.len(),
                        vecs == rows(vectors@),
                        i_u == i,
                        adj == grown(metric, vecs, m as nat, ef_construction, i as nat),
                        is_graph(adj, n as nat),
                        j <= count,
                        count == chosen.len(),
                        count <= found@.len(),
                        chosen == first_n(found@, m as nat),
                        forall|x: int|
                            0 <= x < chosen.len() ==> (#[trigger] chosen[x]).1 < n && chosen[x].1
                                != i_u,
                        rows(neighbors@) == joined_all(
                            metric,
                            vecs,
                            adj,
                            i_u,
                            chosen.take(j as int),
                            m as nat,
                        ),
                        is_graph(rows(neighbors@), n as nat),
                    decreases count - j,
                {
                    let nb: u32 = found[j].1;
                    proof {
                        assert(chosen[j as int] == found@[j as int]);
                        assert(chosen.take(j + 1).drop_last() =~= chosen.take(j as int));
                        assert(chosen.take(j + 1).last() == chosen[j as int]);
                    }
                    join(&metric, &vectors, &mut neighbors, i_u, nb, m);
                    j += 1;
                }
                assert(chosen.take(count as int) =~= chosen);
                i += 1;
            }
        }
        proof {
            lemma_grown(metric, vecs, m as nat, ef_construction, n as nat);
        }
        Graph { m, ef_construction, neighbors, vectors, global_ids, keys, metric }
    }

    /// Searches for the nodes nearest to `q`. Nodes in `excluded` are only
    /// walked through. Returns distances and nodes by ascending distance.
    pub fn search_internal(&self, q: &[T], ef: usize, excluded: &[u32]) -> (r: Vec<(u64, u32)>)
        requires
            self.wf(),
        ensures
            r@ == self.found_near(q@, ef, excluded@),
            forall|i: int| 0 <= i < r@.len() ==> (#[trigger] r@[i]).1 < self.vectors@.len(),
    {
        if self.vectors.len() == 0 {
            return Vec::new();
        }
        let space = Excluding { metric: &self.metric, q, vectors: &self.vectors, excluded };
        proof {
            lemma_search_from(space.nodes(), closest(ef), rows(self.neighbors@), ENTRY);
        }
        search_one(&space, closest_rules(ef), &self.neighbors, ENTRY)
    }

    /// What `search_internal` returns.
    pub open spec fn found_near(&self, q: Seq<T>, ef: usize, excluded: Seq<u32>) -> Seq<
        (u64, u32),
    > {
        if self.vectors@.len() == 0 {
            Seq::empty()
        } else {
            search_from(
                excluding(self.metric, q, rows(self.vectors@), excluded),
                closest(ef),
                rows(self.neighbors@),
                ENTRY,
            )
        }
    }

    /// What `search_range_prefilter` finds.
    pub open spec fn found_in_window(&self, q: Seq<T>, ef: usize, lo: u64, hi: u64) -> Seq<
        (u64, u32),
    > {
        if self.vectors@.len() == 0 {
            Seq::empty()
        } else {
            search_from(
                in_window(self.metric, q, rows(self.vectors@), self.keys@, lo, hi),
                thorough(ef),
                rows(self.neighbors@),
                ENTRY,
            )
        }
    }

    /// Searches for the nodes nearest to `q`, with the caller's numbers and the
    /// range keys.
    pub fn search(&self, q: &[T], ef: usize) -> (r: Vec<Hit>)
        requires
            self.wf(),
        ensures
            r@ == as_hits(
                self.found_near(q@, ef, Seq::empty()),
                self.global_ids@,
                self.keys@,
            ),
    {
        let none: [u32; 0] = [];
        assert(none@ =~= Seq::empty());
        let found = self.search_internal(q, ef, &none);
        self.to_hits(found.as_slice())
    }

    /// Searches for the nodes nearest to `q` among those whose key lies between
    /// `lo` and `hi`. Other nodes are walked through.
    pub fn search_range_prefilter(&self, q: &[T], ef: usize, lo: u64, hi: u64) -> (r: Vec<Hit>)
        requires
            self.wf(),
        ensures
            r@ == as_hits(self.found_in_window(q@, ef, lo, hi), self.global_ids@, self.keys@),
            forall|i: int| 0 <= i < r@.len() ==> lo <= (#[trigger] r@[i]).2 <= hi,
    {
        if self.vectors.len() == 0 {
            let r: Vec<Hit> = Vec::new();
            assert(r@ =~= as_hits(Seq::empty(), self.global_ids@, self.keys@));
            return r;
        }
        let space = InWindow {
            metric: &self.metric,
            q,
            vectors: &self.vectors,
            keys: &self.keys,
            lo,
            hi,
        };
        proof {
            lemma_search_from(space.nodes(), thorough(ef), rows(self.neighbors@), ENTRY);
        }
        let rules = Rules {
            ef,
            selective: false,
            contested: false,
            high_first: false,
            high_wins: false,
        };
        let found = search_one(&space, rules, &self.neighbors, ENTRY);
        assert forall|i: int| 0 <= i < found@.len() implies lo <= self.keys@[(
        #[trigger] found@[i]).1 as int] <= hi by {
            assert(space.nodes().admits(found@[i].1));
        }
        self.to_hits(found.as_slice())
    }

    fn to_hits(&self, found: &[(u64, u32)]) -> (r: Vec<Hit>)
        requires
            self.wf(),
            forall|i: int| 0 <= i < found@.len() ==> (#[trigger] found@[i]).1 < self.vectors@.len(),
        ensures
            r@ == as_hits(found@, self.global_ids@, self.keys@),
    {
        let n: usize = found.len();
        let mut r: Vec<Hit> = Vec::new();
        let mut i: usize = 0;
        while i < n
            invariant
                i <= n,
                n == found@.len(),
                self.wf(),
                forall|i: int|
                    0 <= i < found@.len() ==> (#[trigger] found@[i]).1 < self.vectors@.len(),
                r@ =~= as_hits(found@, self.global_ids@, self.keys@).take(i as int),
            decreases n - i,
        {
            let (d, id) = found[i];
            assert(found@[i as int].1 < self.vectors@.len());
            r.push((d, self.global_ids[id as usize], self.keys[id as usize]));
            i += 1;
        }
        assert(as_hits(found@, self.global_ids@, self.keys@).take(n as int) =~= as_hits(
            found@,
            self.global_ids@,
            self.keys@,
        ));
        r
    }

    /// What the lists, the vectors, the numbers and the keys have room for.
    pub(crate) fn rooms(&self) -> (r: Vec<usize>)
        ensures
            graph_rooms_fit(*self, r@),
    {
        let mut r = rooms_of(self.neighbors.as_slice());
        let mut vecs = rooms_of(self.vectors.as_slice());
        let ghost edges = r@;
        let ghost components = vecs@;
        r.append(&mut vecs);
        r.push(room(&self.global_ids));
        r.push(room(&self.keys));
        proof {
            let e = self.neighbors@.len() as int;
            let v = self.vectors@.len() as int;
            assert(r@.subrange(0, e) =~= edges);
            assert(r@.subrange(e, e + v) =~= components);
        }
        r
    }

    /// The bytes that the graph holds, or the greatest number where these do
    /// not fit: four for each neighbour, component, number and key that there
    /// is room for. How much room there is beyond what is used, the allocator
    /// decides.
    pub fn memory_bytes(&self) -> (r: usize)
        ensures
            r >= clamped(held_by_graph(*self)),
            exists|rooms: Seq<usize>| #[trigger]
                graph_rooms_fit(*self, rooms) && r == clamped(held(rooms, 0)),
    {
        let rooms = self.rooms();
        proof {
            lemma_held_by_graph(*self, rooms@);
        }
        bytes_for(rooms.as_slice(), 0)
    }
}

/// The bytes that a graph uses.
pub open spec fn held_by_graph<T, D>(g: Graph<T, D>) -> nat {
    4 * (cells(rows(g.neighbors@)) + cells(rows(g.vectors@)) + g.global_ids@.len() + g.keys@.len())
}

/// `rooms` can be what a graph's lists, then its vectors, then its numbers and its
/// keys have room for.
pub open spec fn graph_rooms_fit<T, D>(g: Graph<T, D>, rooms: Seq<usize>) -> bool {
    let e = g.neighbors@.len() as int;
    let v = g.vectors@.len() as int;
    &&& rooms.len() == e + v + 2
    &&& rooms_fit(rows(g.neighbors@), rooms.subrange(0, e))
    &&& rooms_fit(rows(g.vectors@), rooms.subrange(e, e + v))
    &&& fits::<u32>(g.global_ids@.len(), rooms[e + v])
    &&& fits::<u64>(g.keys@.len(), rooms[e + v + 1])
}

/// A graph uses no more bytes than it has room for.
pub proof fn lemma_held_by_graph<T, D>(g: Graph<T, D>, rooms: Seq<usize>)
    requires
        graph_rooms_fit(g, rooms),
    ensures
        held_by_graph(g) <= held(rooms, 0),
{
    let e = g.neighbors@.len() as int;
    let v = g.vectors@.len() as int;
    let edges = rooms.subrange(0, e);
    let components = rooms.subrange(e, e + v);
    lemma_rooms_fit(rows(g.neighbors@), edges);
    lemma_rooms_fit(rows(g.vectors@), components);
    lemma_room_total_add(edges, components);
    lemma_room_total_push(edges + components, rooms[e + v]);
    lemma_room_total_push((edges + components).push(rooms[e + v]), rooms[e + v + 1]);
    assert(rooms =~= (edges + components).push(rooms[e + v]).push(rooms[e + v + 1]));
}

/// Joins new node `i` to node `nb`, in both directions.
fn join<T, D: Distance<T>>(
    metric: &D,
    vectors: &Vec<Vec<T>>,
    neighbors: &mut Vec<Vec<u32>>,
    i: u32,
    nb: u32,
    m: usize,
)
    requires
        is_graph(rows(old(neighbors)@), vectors@.len()),
        i < vectors@.len(),
        nb < vectors@.len(),
    ensures
        rows(final(neighbors)@) == joined(*metric, rows(vectors@), rows(old(neighbors)@), i, nb, m as nat),
        is_graph(rows(final(neighbors)@), vectors@.len()),
{
    let ghost vecs = rows(vectors@);
    let ghost n = vecs.len();
    let ghost adj = rows(neighbors@);
    assert(adj[i as int] == neighbors@[i as int]@);
    if !holds(neighbors[i as usize].as_slice(), nb) {
        neighbors[i as usize].push(nb);
    }
    let ghost there = rows(neighbors@);
    proof {
        assert(there =~= with_edge(adj, i, nb));
        assert forall|a: int| 0 <= a < n implies listed_below(#[trigger] there[a], n) by {
            assert(listed_below(adj[a], n));
        }
    }
    assert(there[nb as int] == neighbors@[nb as int]@);
    if !holds(neighbors[nb as usize].as_slice(), i) {
        let ghost list = there[nb as int];
        neighbors[nb as usize].push(i);
        let ghost longer = neighbors@[nb as int]@;
        assert(longer == list.push(i));
        assert(listed_below(list, n));
        assert(listed_below(longer, n));
        let len: usize = neighbors[nb as usize].len();
        let none: [u32; 0] = [];
        assert(none@ =~= Seq::empty());
        if len > m && len - m > m {
            let space = Excluding {
                metric,
                q: vectors[nb as usize].as_slice(),
                vectors,
                excluded: &none,
            };
            assert(vecs[nb as int] == vectors@[nb as int]@);
            let cut = select_nearest(&space, neighbors[nb as usize].as_slice(), m + 1);
            proof {
                lemma_nearest(space.nodes(), longer, m as nat + 1);
                assert forall|x: int| 0 <= x < cut@.len() implies (#[trigger] cut@[x]) < n by {
                    assert(longer.contains(cut@[x]));
                    let y = choose|y: int| 0 <= y < longer.len() && longer[y] == cut@[x];
                    assert(longer[y] < n);
                }
            }
            neighbors.set(nb as usize, cut);
        }
        let ghost out = rows(neighbors@);
        proof {
            assert(out =~= joined(*metric, vecs, adj, i, nb, m as nat));
            assert forall|a: int| 0 <= a < n implies listed_below(#[trigger] out[a], n) by {
                assert(listed_below(there[a], n));
            }
        }
    }
}

/// The numbers of the chosen nodes.
spec fn chosen_ids(chosen: Seq<(u64, u32)>) -> Seq<u32> {
    Seq::new(chosen.len(), |j: int| chosen[j].1)
}

proof fn lemma_own_list<T, D: Distance<T>>(
    metric: D,
    vectors: Seq<Seq<T>>,
    adj: Seq<Seq<u32>>,
    i: u32,
    chosen: Seq<(u64, u32)>,
    m: nat,
)
    requires
        adj.len() == vectors.len(),
        i < vectors.len(),
        adj[i as int].len() == 0,
        forall|j: int|
            0 <= j < chosen.len() ==> (#[trigger] chosen[j]).1 < vectors.len() && chosen[j].1 != i,
        forall|x: int, y: int|
            0 <= x < y < chosen.len() ==> (#[trigger] chosen[x]).1 != (#[trigger] chosen[y]).1,
    ensures
        joined_all(metric, vectors, adj, i, chosen, m).len() == adj.len(),
        joined_all(metric, vectors, adj, i, chosen, m)[i as int] == chosen_ids(chosen),
    decreases chosen.len(),
{
    if chosen.len() == 0 {
        assert(adj[i as int] =~= chosen_ids(chosen));
    } else {
        let t = chosen.drop_last();
        assert forall|j: int| 0 <= j < t.len() implies (#[trigger] t[j]).1 < vectors.len() && t[j].1
            != i by {
            assert(t[j] == chosen[j]);
        }
        assert forall|x: int, y: int| 0 <= x < y < t.len() implies (#[trigger] t[x]).1 != (
        #[trigger] t[y]).1 by {
            assert(t[x] == chosen[x] && t[y] == chosen[y]);
        }
        lemma_own_list(metric, vectors, adj, i, t, m);
        let last = chosen[chosen.len() - 1].1;
        assert(last < vectors.len() && last != i);
        let list = chosen_ids(t);
        assert(!list.contains(last)) by {
            if list.contains(last) {
                let x = choose|x: int| 0 <= x < list.len() && list[x] == last;
                assert(chosen[x].1 == last);
            }
        }
        assert(list.push(last) =~= chosen_ids(chosen));
    }
}

/// A node that is inserted is joined to the nodes that a search for it finds, as far as
/// it may have neighbours, and to the nearest of them. Where the search is as wide as
/// the graph, these are the nearest of all nodes that it leads to.
pub proof fn lemma_new_node<T, D: Distance<T>>(
    metric: D,
    vectors: Seq<Seq<T>>,
    m: nat,
    ef: usize,
    count: nat,
)
    requires
        2 <= count <= vectors.len() <= 0x1_0000_0000,
    ensures
        ({
            let i = (count - 1) as u32;
            let adj = grown(metric, vectors, m, ef, (count - 1) as nat);
            let space = excluding(metric, vectors[i as int], vectors, seq![i]);
            let found = search_from(space, closest(ef), adj, 0);
            let list = grown(metric, vectors, m, ef, count)[i as int];
            &&& list.len() == if m <= found.len() {
                m
            } else {
                found.len()
            }
            &&& forall|j: int| 0 <= j < list.len() ==> (#[trigger] list[j]) < vectors.len() && list[j] != i
            &&& forall|j: int, x: int|
                0 <= j < list.len() && 0 <= x < found.len() && !list.contains(
                    (#[trigger] found[x]).1,
                ) ==> metric.spec_key(vectors[i as int], vectors[#[trigger] list[j] as int])
                    <= found[x].0
            &&& forall|j: int, x: u32|
                ef >= vectors.len() && 0 <= j < list.len() && x != i && #[trigger] reachable(
                    adj,
                    0,
                    x,
                ) && !list.contains(x) ==> metric.spec_key(
                    vectors[i as int],
                    vectors[#[trigger] list[j] as int],
                ) <= metric.spec_key(vectors[i as int], vectors[x as int])
        }),
{
    let c = (count - 1) as nat;
    let i = c as u32;
    let adj = grown(metric, vectors, m, ef, c);
    let space = excluding(metric, vectors[i as int], vectors, seq![i]);
    let found = search_from(space, closest(ef), adj, 0);
    let chosen = chosen_for(metric, vectors, adj, i, m, ef);
    let list = grown(metric, vectors, m, ef, count)[i as int];
    lemma_grown_within(metric, vectors, m, ef, c);
    lemma_search_from(space, closest(ef), adj, 0);
    lemma_chosen(metric, vectors, adj, i, m, ef);
    assert(adj[i as int].len() == 0);
    assert forall|x: int, y: int| 0 <= x < y < chosen.len() implies (#[trigger] chosen[x]).1 != (
    #[trigger] chosen[y]).1 by {
        assert(chosen[x] == found[x] && chosen[y] == found[y]);
    }
    lemma_own_list(metric, vectors, adj, i, chosen, m);
    assert(list == chosen_ids(chosen));
    assert forall|j: int| 0 <= j < list.len() implies (#[trigger] list[j]) < vectors.len() && list[j]
        != i && list[j] == found[j].1 by {
        assert(list[j] == chosen[j].1);
    }
    assert forall|j: int, x: int|
        0 <= j < list.len() && 0 <= x < found.len() && !list.contains(
            (#[trigger] found[x]).1,
        ) implies metric.spec_key(vectors[i as int], vectors[#[trigger] list[j] as int])
        <= found[x].0 by {
        if x < list.len() {
            assert(list[x] == found[x].1);
        }
        assert(found[j].0 == space.rank_of(found[j].1));
        assert(found[j].0 <= found[x].0);
    }
    assert forall|j: int, x: u32|
        ef >= vectors.len() && 0 <= j < list.len() && x != i && #[trigger] reachable(adj, 0, x)
            && !list.contains(x) implies metric.spec_key(
        vectors[i as int],
        vectors[#[trigger] list[j] as int],
    ) <= metric.spec_key(vectors[i as int], vectors[x as int]) by {
        crate::beam_laws::lemma_search_from_exact(space, closest(ef), adj, 0, x);
        let alone = seq![i];
        assert(!alone.contains(x));
        assert(space.admits(x));
        let y = choose|y: int| 0 <= y < found.len() && found[y] == (space.rank_of(x), x);
        assert(found[y].1 == x);
    }
}

/// What a search over a part finds: different nodes by ascending distance, each under its
/// own distance, no more than asked for; in a window only such whose key lies in it. It
/// cannot get better from what it found: a neighbour of a result that may be one is a
/// result too, or there are as many as asked for and none of them is farther.
pub proof fn lemma_graph_search<T: Copy, D: Distance<T>>(
    g: Graph<T, D>,
    q: Seq<T>,
    ef: usize,
    lo: u64,
    hi: u64,
)
    requires
        g.wf(),
        g.vectors@.len() > 0,
        ef > 0,
    ensures
        ({
            let vectors = rows(g.vectors@);
            let near = g.found_near(q, ef, Seq::empty());
            let within = g.found_in_window(q, ef, lo, hi);
            &&& near.len() <= ef && within.len() <= ef
            &&& ascending(near) && ascending(within)
            &&& near.len() > 0 && near[0].0 <= g.metric.spec_key(q, vectors[0])
            &&& forall|i: int|
                0 <= i < near.len() ==> (#[trigger] near[i]).1 < vectors.len() && near[i].0
                    == g.metric.spec_key(q, vectors[near[i].1 as int])
            &&& forall|i: int|
                0 <= i < within.len() ==> (#[trigger] within[i]).1 < vectors.len() && within[i].0
                    == g.metric.spec_key(q, vectors[within[i].1 as int]) && lo
                    <= g.keys@[within[i].1 as int] <= hi
            &&& forall|i: int, j: int|
                0 <= i < j < near.len() ==> (#[trigger] near[i]).1 != (#[trigger] near[j]).1
            &&& forall|i: int, j: int|
                0 <= i < j < within.len() ==> (#[trigger] within[i]).1 != (#[trigger] within[j]).1
            &&& forall|i: int, y: u32|
                0 <= i < near.len() && #[trigger] edge(
                    rows(g.neighbors@),
                    (#[trigger] near[i]).1,
                    y,
                ) ==> {
                    let d = g.metric.spec_key(q, vectors[y as int]);
                    near.contains((d, y)) || near.len() >= ef && near.last().0 <= d
                }
            &&& forall|i: int, y: u32|
                0 <= i < within.len() && #[trigger] edge(
                    rows(g.neighbors@),
                    (#[trigger] within[i]).1,
                    y,
                ) && lo <= g.keys@[y as int] <= hi ==> {
                    let d = g.metric.spec_key(q, vectors[y as int]);
                    within.contains((d, y)) || within.len() >= ef && within.last().0 <= d
                }
        }),
{
    let vectors = rows(g.vectors@);
    let adj = rows(g.neighbors@);
    let all = excluding(g.metric, q, vectors, Seq::empty());
    let some = in_window(g.metric, q, vectors, g.keys@, lo, hi);
    let near = g.found_near(q, ef, Seq::empty());
    let within = g.found_in_window(q, ef, lo, hi);
    lemma_search_from(all, closest(ef), adj, ENTRY);
    lemma_search_from(some, thorough(ef), adj, ENTRY);
    crate::walk_laws::lemma_search_settles(all, closest(ef), adj, ENTRY);
    crate::walk_laws::lemma_search_settles(some, thorough(ef), adj, ENTRY);
    assert(all.admits(ENTRY));
    assert forall|i: int, y: u32|
        0 <= i < near.len() && #[trigger] edge(adj, (#[trigger] near[i]).1, y) implies {
        let d = g.metric.spec_key(q, vectors[y as int]);
        near.contains((d, y)) || near.len() >= ef && near.last().0 <= d
    } by {
        assert(all.admits(y));
        assert(all.rank_of(y) == g.metric.spec_key(q, vectors[y as int]));
    }
    assert forall|i: int, y: u32|
        0 <= i < within.len() && #[trigger] edge(adj, (#[trigger] within[i]).1, y) && lo
            <= g.keys@[y as int] <= hi implies {
        let d = g.metric.spec_key(q, vectors[y as int]);
        within.contains((d, y)) || within.len() >= ef && within.last().0 <= d
    } by {
        let list = adj[within[i].1 as int];
        let p = choose|p: int| 0 <= p < list.len() && list[p] == y;
        assert(listed_below(list, vectors.len()));
        assert(list[p] < vectors.len());
        assert(some.admits(y));
        assert(some.rank_of(y) == g.metric.spec_key(q, vectors[y as int]));
    }
    assert forall|i: int| 0 <= i < within.len() implies (#[trigger] within[i]).1 < vectors.len()
        && within[i].0 == g.metric.spec_key(q, vectors[within[i].1 as int]) && lo
        <= g.keys@[within[i].1 as int] <= hi by {
        assert(some.admits(within[i].1));
    }
}

} // verus!
