//! A single-layer proximity graph over some of a collection's vectors.
//!
//! Nodes are inserted one by one. Each is joined to the nodes that a beam search
//! from the first node finds nearest.

use std::sync::Arc;

use vstd::prelude::*;

use crate::beam::{
    is_graph, lemma_few_others, listed_below, search_from, search_one, Nodes, Rules, Space,
};
use crate::beam_laws::{lemma_search_from, lemma_search_from_exact};
use crate::bytes::{bytes_for, cells, clamped, held, lemma_rooms_fit, rooms_fit, rooms_of};
use crate::reach::{
    edge, lemma_reach_closed, lemma_reach_self, lemma_reach_step, lemma_reach_subgraph, reachable,
    subgraph,
};
use crate::scalar::Scalar;
use crate::serf::data::{sq_l2, sq_l2_of};
use crate::sorting::first_n;
use crate::spaces::{lemma_nearest, nearest, select_nearest};
use crate::table::{empty_rows, rows};

verus! {

/// How a graph is built and searched.
#[derive(Debug, Clone, Copy)]
pub struct NswParams {
    /// The number of nodes that a new node is joined to.
    pub m: usize,
    /// The number of nodes among which these are chosen.
    pub ef_construction: usize,
    /// The number of results of a search, at least.
    pub ef_search: usize,
}

impl Default for NswParams {
    fn default() -> (r: Self)
        ensures
            r.m == 16,
            r.ef_construction == 64,
            r.ef_search == 32,
    {
        NswParams { m: 16, ef_construction: 64, ef_search: 32 }
    }
}

/// The vectors that nodes stand for.
pub open spec fn picked<R>(vectors: Seq<Seq<R>>, ids: Seq<u32>) -> Seq<Seq<R>> {
    Seq::new(ids.len(), |i: int| vectors[ids[i] as int])
}

/// The nodes by distance from `q`. The one that is excluded is only walked
/// through.
pub open spec fn near<R: Scalar>(points: Seq<Seq<R>>, q: Seq<R>, excluded: Option<u32>) -> Nodes {
    Nodes {
        count: points.len(),
        ranks: |id: u32| sq_l2_of(q, points[id as int]).key_of(),
        allowed: |id: u32| excluded != Some(id),
    }
}

/// The rules of every search: only a node that is nearer than the worst result
/// is taken; the smaller number wins.
pub open spec fn taking(ef: usize) -> Rules {
    Rules { ef, selective: true, contested: false, high_first: false, high_wins: false }
}

/// A list that has become longer than `2 * m` is cut to the `m` nearest.
pub open spec fn cut_list(nodes: Nodes, list: Seq<u32>, m: nat) -> Seq<u32> {
    if list.len() > 2 * m {
        nearest(nodes, list, m)
    } else {
        list
    }
}

/// The graph after new node `i` was joined to node `nb`.
pub open spec fn linked<R: Scalar>(
    points: Seq<Seq<R>>,
    adj: Seq<Seq<u32>>,
    i: u32,
    nb: u32,
    m: nat,
) -> Seq<Seq<u32>> {
    let there = adj.update(i as int, adj[i as int].push(nb));
    there.update(
        nb as int,
        cut_list(near(points, points[nb as int], None), there[nb as int].push(i), m),
    )
}

/// The graph after new node `i` was joined to each of `chosen`.
pub open spec fn linked_all<R: Scalar>(
    points: Seq<Seq<R>>,
    adj: Seq<Seq<u32>>,
    i: u32,
    chosen: Seq<(u64, u32)>,
    m: nat,
) -> Seq<Seq<u32>>
    decreases chosen.len(),
{
    if chosen.len() == 0 {
        adj
    } else {
        linked(
            points,
            linked_all(points, adj, i, chosen.drop_last(), m),
            i,
            chosen.last().1,
            m,
        )
    }
}

/// The nodes that new node `i` is joined to.
pub open spec fn chosen_for<R: Scalar>(
    points: Seq<Seq<R>>,
    adj: Seq<Seq<u32>>,
    i: u32,
    m: nat,
    ef: usize,
) -> Seq<(u64, u32)> {
    first_n(search_from(near(points, points[i as int], Some(i)), taking(ef), adj, 0), m)
}

/// The graph with node `i` joined to the first node, if it has no neighbours.
pub open spec fn anchored(adj: Seq<Seq<u32>>, i: u32) -> Seq<Seq<u32>> {
    if adj[i as int].len() == 0 {
        adj.update(i as int, adj[i as int].push(0))
    } else {
        adj
    }
}

/// The graph after the first `count` nodes were inserted.
pub open spec fn grown<R: Scalar>(
    points: Seq<Seq<R>>,
    m: nat,
    ef: usize,
    count: nat,
) -> Seq<Seq<u32>>
    decreases count,
{
    if count <= 1 {
        Seq::new(points.len(), |i: int| Seq::empty())
    } else {
        let adj = grown(points, m, ef, (count - 1) as nat);
        let i = (count - 1) as u32;
        anchored(linked_all(points, adj, i, chosen_for(points, adj, i, m, ef), m), i)
    }
}

/// What a search of a graph finds: distances and nodes.
pub open spec fn nsw_nodes<R: Scalar>(
    points: Seq<Seq<R>>,
    adj: Seq<Seq<u32>>,
    q: Seq<R>,
    ef: usize,
) -> Seq<(u64, u32)> {
    if points.len() == 0 {
        Seq::empty()
    } else {
        search_from(near(points, q, None), taking(ef), adj, 0)
    }
}

/// The greater of two numbers.
pub open spec fn greatest(a: usize, b: usize) -> usize {
    if a < b {
        b
    } else {
        a
    }
}

/// Nodes as positions and distances of vectors.
pub open spec fn as_found<R: Scalar>(
    vectors: Seq<Seq<R>>,
    ids: Seq<u32>,
    q: Seq<R>,
    nodes: Seq<(u64, u32)>,
) -> Seq<(usize, R)> {
    Seq::new(
        nodes.len(),
        |i: int|
            (
                ids[nodes[i].1 as int] as usize,
                sq_l2_of(q, vectors[ids[nodes[i].1 as int] as int]),
            ),
    )
}

/// What a search finds in the graph that is built over the vectors `ids`.
pub open spec fn nsw_hits<R: Scalar>(
    vectors: Seq<Seq<R>>,
    ids: Seq<u32>,
    params: NswParams,
    q: Seq<R>,
    k: usize,
) -> Seq<(usize, R)> {
    let points = picked(vectors, ids);
    let adj = grown(points, params.m as nat, params.ef_construction, ids.len());
    as_found(
        vectors,
        ids,
        q,
        first_n(nsw_nodes(points, adj, q, greatest(params.ef_search, k)), k as nat),
    )
}

/// Computes what `near` states.
struct Near<'a, R> {
    q: &'a [R],
    vectors: &'a Vec<Vec<R>>,
    ids: &'a Vec<u32>,
    excluded: Option<u32>,
}

impl<'a, R> Near<'a, R> {
    /// The vectors exist.
    #[verifier::type_invariant]
    spec fn inv(self) -> bool {
        listed_below(self.ids@, self.vectors@.len())
    }
}

impl<'a, R: Scalar> Space for Near<'a, R> {
    closed spec fn nodes(&self) -> Nodes {
        near(picked(rows(self.vectors@), self.ids@), self.q@, self.excluded)
    }

    fn rank(&self, id: u32) -> (r: u64) {
        proof {
            use_type_invariant(self);
            assert(self.ids@[id as int] < self.vectors@.len());
        }
        let at: u32 = self.ids[id as usize];
        sq_l2(self.q, self.vectors[at as usize].as_slice()).key()
    }

    fn allow(&self, id: u32) -> (b: bool) {
        match self.excluded {
            Some(x) => x != id,
            None => true,
        }
    }
}

fn take_rules(ef: usize) -> (r: Rules)
    ensures
        r == taking(ef),
{
    Rules { ef, selective: true, contested: false, high_first: false, high_wins: false }
}

/// Only nodes below `c` have neighbours, and these are below `c`.
spec fn within(adj: Seq<Seq<u32>>, c: nat) -> bool {
    forall|a: int|
        0 <= a < adj.len() ==> listed_below(#[trigger] adj[a], c) && (a >= c ==> adj[a].len() == 0)
}

/// No list holds its own node or a node twice, or is longer than `most`.
pub open spec fn tidy(adj: Seq<Seq<u32>>, most: nat) -> bool {
    forall|a: int|
        0 <= a < adj.len() ==> {
            let list = #[trigger] adj[a];
            &&& list.len() <= most
            &&& list.no_duplicates()
            &&& !list.contains(a as u32)
        }
}

/// The most neighbours that a node has.
pub open spec fn most_neighbours(m: nat) -> nat {
    if m == 0 {
        1
    } else {
        2 * m
    }
}

proof fn lemma_linked<R: Scalar>(
    points: Seq<Seq<R>>,
    adj: Seq<Seq<u32>>,
    i: u32,
    nb: u32,
    m: nat,
    c: nat,
)
    requires
        adj.len() == points.len(),
        within(adj, c),
        tidy(adj, most_neighbours(m)),
        i < c <= points.len(),
        nb < c,
        nb != i,
        m > 0,
        !adj[i as int].contains(nb),
        !adj[nb as int].contains(i),
        adj[i as int].len() < m,
    ensures
        within(linked(points, adj, i, nb, m), c),
        tidy(linked(points, adj, i, nb, m), most_neighbours(m)),
        linked(points, adj, i, nb, m).len() == adj.len(),
        linked(points, adj, i, nb, m)[i as int] == adj[i as int].push(nb),
        forall|a: int|
            0 <= a < adj.len() && a != i && a != nb ==> linked(points, adj, i, nb, m)[a] == adj[a],
{
    let there = adj.update(i as int, adj[i as int].push(nb));
    let list = adj[nb as int];
    let longer = list.push(i);
    let nodes = near(points, points[nb as int], None);
    let cut = cut_list(nodes, longer, m);
    let out = linked(points, adj, i, nb, m);
    lemma_nearest(nodes, longer, m);
    assert(listed_below(list, c));
    assert(listed_below(adj[i as int], c));
    assert(list.no_duplicates() && !list.contains(nb));
    assert(longer.no_duplicates()) by {
        assert forall|x: int, y: int|
            0 <= x < longer.len() && 0 <= y < longer.len() && x != y implies longer[x] != longer[y] by {
            if x < list.len() {
                assert(list.contains(list[x]));
            }
            if y < list.len() {
                assert(list.contains(list[y]));
            }
        }
    }
    assert forall|x: int| 0 <= x < cut.len() implies (#[trigger] cut[x]) < c && cut[x] != nb by {
        assert(longer.contains(cut[x])) by {
            if longer.len() <= 2 * m {
                assert(longer[x] == cut[x]);
            }
        }
        let y = choose|y: int| 0 <= y < longer.len() && longer[y] == cut[x];
        if y < list.len() {
            assert(list[y] < c);
            assert(list.contains(list[y]));
        }
    }
    let own = adj[i as int];
    let own2 = own.push(nb);
    assert(own.no_duplicates() && !own.contains(i));
    assert(own2.no_duplicates()) by {
        assert forall|x: int, y: int|
            0 <= x < own2.len() && 0 <= y < own2.len() && x != y implies own2[x] != own2[y] by {
            if x < own.len() {
                assert(own.contains(own[x]));
            }
            if y < own.len() {
                assert(own.contains(own[y]));
            }
        }
    }
    assert(!own2.contains(i)) by {
        assert forall|x: int| 0 <= x < own2.len() implies own2[x] != i by {
            if x < own.len() {
                assert(own.contains(own[x]));
            }
        }
    }
    assert forall|a: int| 0 <= a < out.len() implies listed_below(#[trigger] out[a], c) && (a >= c
        ==> out[a].len() == 0) by {
        assert(listed_below(adj[a], c));
        if a == nb {
            assert(out[a] == cut);
        } else if a == i {
            assert(out[a] == own2);
        } else {
            assert(out[a] == adj[a]);
        }
    }
    assert forall|a: int| 0 <= a < out.len() implies {
        let l = #[trigger] out[a];
        &&& l.len() <= most_neighbours(m)
        &&& l.no_duplicates()
        &&& !l.contains(a as u32)
    } by {
        assert(adj[a].len() <= most_neighbours(m));
        if a == nb {
            assert(out[a] == cut);
        } else if a == i {
            assert(out[a] == own2);
        } else {
            assert(out[a] == adj[a]);
        }
    }
}

proof fn lemma_linked_all<R: Scalar>(
    points: Seq<Seq<R>>,
    adj: Seq<Seq<u32>>,
    i: u32,
    chosen: Seq<(u64, u32)>,
    m: nat,
    c: nat,
)
    requires
        adj.len() == points.len(),
        within(adj, (c - 1) as nat),
        tidy(adj, most_neighbours(m)),
        i + 1 == c <= points.len(),
        chosen.len() <= m,
        forall|j: int| 0 <= j < chosen.len() ==> (#[trigger] chosen[j]).1 < i,
        forall|x: int, y: int|
            0 <= x < y < chosen.len() ==> (#[trigger] chosen[x]).1 != (#[trigger] chosen[y]).1,
    ensures
        within(linked_all(points, adj, i, chosen, m), c),
        tidy(linked_all(points, adj, i, chosen, m), most_neighbours(m)),
        linked_all(points, adj, i, chosen, m).len() == adj.len(),
        linked_all(points, adj, i, chosen, m)[i as int].len() == chosen.len(),
        forall|x: int|
            0 <= x < chosen.len() ==> (#[trigger] linked_all(points, adj, i, chosen, m)[i as int][x])
                == chosen[x].1,
        forall|a: int|
            0 <= a < i && (forall|x: int| 0 <= x < chosen.len() ==> (#[trigger] chosen[x]).1 != a)
                ==> #[trigger] linked_all(points, adj, i, chosen, m)[a] == adj[a],
    decreases chosen.len(),
{
    if chosen.len() == 0 {
        assert forall|a: int| 0 <= a < adj.len() implies listed_below(#[trigger] adj[a], c) && (a
            >= c ==> adj[a].len() == 0) by {
            assert(listed_below(adj[a], (c - 1) as nat));
        }
        assert(adj[i as int].len() == 0);
    } else {
        let t = chosen.drop_last();
        let nb = chosen.last().1;
        assert(chosen[chosen.len() - 1].1 < i);
        assert forall|j: int| 0 <= j < t.len() implies (#[trigger] t[j]) == chosen[j] by {}
        lemma_linked_all(points, adj, i, t, m, c);
        let b = linked_all(points, adj, i, t, m);
        assert forall|x: int| 0 <= x < t.len() implies (#[trigger] t[x]).1 != nb by {
            assert(chosen[x].1 != chosen[chosen.len() - 1].1);
        }
        assert(b[nb as int] == adj[nb as int]);
        assert(!adj[nb as int].contains(i)) by {
            assert(listed_below(adj[nb as int], (c - 1) as nat));
        }
        assert(!b[i as int].contains(nb)) by {
            assert forall|x: int| 0 <= x < b[i as int].len() implies b[i as int][x] != nb by {
                assert(b[i as int][x] == t[x].1);
            }
        }
        lemma_linked(points, b, i, nb, m, c);
        let out = linked_all(points, adj, i, chosen, m);
        assert forall|x: int| 0 <= x < chosen.len() implies (#[trigger] out[i as int][x])
            == chosen[x].1 by {
            if x < t.len() {
                assert(b[i as int][x] == t[x].1);
            }
        }
        assert forall|a: int|
            0 <= a < i && (forall|x: int| 0 <= x < chosen.len() ==> (#[trigger] chosen[x]).1 != a) implies #[trigger] out[a]
            == adj[a] by {
            assert(chosen[chosen.len() - 1].1 != a);
            assert forall|x: int| 0 <= x < t.len() implies (#[trigger] t[x]).1 != a by {
                assert(chosen[x].1 != a);
            }
            assert(b[a] == adj[a]);
        }
    }
}

/// The nodes chosen for a new node are earlier ones, each once.
proof fn lemma_chosen<R: Scalar>(
    points: Seq<Seq<R>>,
    adj: Seq<Seq<u32>>,
    i: u32,
    m: nat,
    ef: usize,
)
    requires
        is_graph(adj, points.len()),
        within(adj, i as nat),
        0 < i < points.len(),
    ensures
        ({
            let chosen = chosen_for(points, adj, i, m, ef);
            &&& chosen.len() <= m
            &&& forall|j: int| 0 <= j < chosen.len() ==> (#[trigger] chosen[j]).1 < i
            &&& forall|x: int, y: int|
                0 <= x < y < chosen.len() ==> (#[trigger] chosen[x]).1 != (#[trigger] chosen[y]).1
        }),
{
    let nodes = near(points, points[i as int], Some(i));
    lemma_search_from(nodes, taking(ef), adj, 0);
    let found = search_from(nodes, taking(ef), adj, 0);
    let chosen = chosen_for(points, adj, i, m, ef);
    let low = Set::new(|x: u32| x < i);
    assert forall|j: int| 0 <= j < chosen.len() implies (#[trigger] chosen[j]).1 < i by {
        assert(chosen[j] == found[j]);
        assert forall|x: u32, y: u32| low.contains(x) && #[trigger] edge(
            adj,
            x,
            y,
        ) implies low.contains(y) by {
            let list = adj[x as int];
            assert(listed_below(list, i as nat));
            let z = choose|z: int| 0 <= z < list.len() && list[z] == y;
            assert(list[z] < i);
        }
        lemma_reach_closed(adj, low, 0, found[j].1);
    }
    assert forall|x: int, y: int| 0 <= x < y < chosen.len() implies (#[trigger] chosen[x]).1 != (
    #[trigger] chosen[y]).1 by {
        assert(found[x].1 != found[y].1);
    }
}

proof fn lemma_within_graph(adj: Seq<Seq<u32>>, c: nat, n: nat)
    requires
        adj.len() == n,
        within(adj, c),
        c <= n,
    ensures
        is_graph(adj, n),
{
    assert forall|a: int| 0 <= a < n implies listed_below(#[trigger] adj[a], n) by {
        assert(listed_below(adj[a], c));
    }
}

proof fn lemma_grown_within<R: Scalar>(points: Seq<Seq<R>>, m: nat, ef: usize, count: nat)
    requires
        1 <= count <= points.len() <= 0x1_0000_0000,
    ensures
        grown(points, m, ef, count).len() == points.len(),
        within(grown(points, m, ef, count), count),
        tidy(grown(points, m, ef, count), most_neighbours(m)),
    decreases count,
{
    if count > 1 {
        let c = (count - 1) as nat;
        lemma_grown_within(points, m, ef, c);
        let adj = grown(points, m, ef, c);
        let i = c as u32;
        lemma_within_graph(adj, c, points.len());
        let chosen = chosen_for(points, adj, i, m, ef);
        lemma_chosen(points, adj, i, m, ef);
        lemma_linked_all(points, adj, i, chosen, m, count);
        let b = linked_all(points, adj, i, chosen, m);
        let out = anchored(b, i);
        if b[i as int].len() == 0 {
            let one = b[i as int].push(0);
            assert forall|a: int| 0 <= a < out.len() implies listed_below(#[trigger] out[a], count)
                && (a >= count ==> out[a].len() == 0) by {
                assert(listed_below(b[a], count));
                if a == i {
                    assert(out[a] == one);
                } else {
                    assert(out[a] == b[a]);
                }
            }
            assert forall|a: int| 0 <= a < out.len() implies {
                let l = #[trigger] out[a];
                &&& l.len() <= most_neighbours(m)
                &&& l.no_duplicates()
                &&& !l.contains(a as u32)
            } by {
                assert(b[a].len() <= most_neighbours(m));
                if a == i {
                    assert(out[a] == one);
                } else {
                    assert(out[a] == b[a]);
                }
            }
        }
    }
}

/// What building keeps: neighbours exist, no node is its own neighbour, none is
/// listed twice, and no list is longer than `2 * m`, or than one where `m` is
/// zero.
pub proof fn lemma_grown<R: Scalar>(points: Seq<Seq<R>>, m: nat, ef: usize, count: nat)
    requires
        count <= points.len() <= 0x1_0000_0000,
    ensures
        is_graph(grown(points, m, ef, count), points.len()),
        tidy(grown(points, m, ef, count), most_neighbours(m)),
{
    if points.len() > 0 {
        let c = if count == 0 {
            1
        } else {
            count
        };
        lemma_grown_within(points, m, ef, c);
        lemma_within_graph(grown(points, m, ef, c), c, points.len());
    }
}

/// Where no list can become too long, joining a node keeps every edge and adds
/// one that leads to it.
proof fn lemma_linked_keeps<R: Scalar>(
    points: Seq<Seq<R>>,
    adj: Seq<Seq<u32>>,
    i: u32,
    nb: u32,
    m: nat,
    c: nat,
)
    requires
        adj.len() == points.len(),
        within(adj, c),
        tidy(adj, most_neighbours(m)),
        i < c <= points.len(),
        nb < c,
        nb != i,
        !adj[nb as int].contains(i),
        points.len() <= 2 * m + 1,
    ensures
        subgraph(adj, linked(points, adj, i, nb, m)),
        edge(linked(points, adj, i, nb, m), nb, i),
{
    let out = linked(points, adj, i, nb, m);
    let list = adj[nb as int];
    let longer = list.push(i);
    assert(listed_below(list, c));
    assert(list.no_duplicates() && !list.contains(nb));
    assert(longer[list.len() as int] == i);
    assert(longer.no_duplicates()) by {
        assert forall|x: int, y: int|
            0 <= x < longer.len() && 0 <= y < longer.len() && x != y implies longer[x] != longer[y] by {
            if x == list.len() {
                assert(list.contains(list[y]));
            } else if y == list.len() {
                assert(list.contains(list[x]));
            }
        }
    }
    assert(!longer.contains(nb)) by {
        assert forall|x: int| 0 <= x < longer.len() implies longer[x] != nb by {
            if x < list.len() {
                assert(list.contains(list[x]));
            }
        }
    }
    lemma_few_others(longer, nb, points.len());
    assert(out[nb as int] == longer);
    assert forall|x: u32, y: u32| #[trigger] edge(adj, x, y) implies edge(out, x, y) by {
        let old_list = adj[x as int];
        let z = choose|z: int| 0 <= z < old_list.len() && old_list[z] == y;
        assert(out[x as int][z] == y);
    }
}

proof fn lemma_linked_all_keeps<R: Scalar>(
    points: Seq<Seq<R>>,
    adj: Seq<Seq<u32>>,
    i: u32,
    chosen: Seq<(u64, u32)>,
    m: nat,
    c: nat,
)
    requires
        adj.len() == points.len(),
        within(adj, (c - 1) as nat),
        tidy(adj, most_neighbours(m)),
        i + 1 == c <= points.len(),
        chosen.len() <= m,
        forall|j: int| 0 <= j < chosen.len() ==> (#[trigger] chosen[j]).1 < i,
        forall|x: int, y: int|
            0 <= x < y < chosen.len() ==> (#[trigger] chosen[x]).1 != (#[trigger] chosen[y]).1,
        points.len() <= 2 * m + 1,
    ensures
        subgraph(adj, linked_all(points, adj, i, chosen, m)),
        forall|j: int|
            0 <= j < chosen.len() ==> edge(
                linked_all(points, adj, i, chosen, m),
                (#[trigger] chosen[j]).1,
                i,
            ),
    decreases chosen.len(),
{
    if chosen.len() > 0 {
        let t = chosen.drop_last();
        let nb = chosen.last().1;
        assert(chosen[chosen.len() - 1].1 < i);
        assert forall|j: int| 0 <= j < t.len() implies (#[trigger] t[j]) == chosen[j] by {}
        lemma_linked_all(points, adj, i, t, m, c);
        lemma_linked_all_keeps(points, adj, i, t, m, c);
        let b = linked_all(points, adj, i, t, m);
        let out = linked_all(points, adj, i, chosen, m);
        assert forall|x: int| 0 <= x < t.len() implies (#[trigger] t[x]).1 != nb by {
            assert(chosen[x].1 != chosen[chosen.len() - 1].1);
        }
        assert(b[nb as int] == adj[nb as int]);
        assert(!adj[nb as int].contains(i)) by {
            assert(listed_below(adj[nb as int], (c - 1) as nat));
        }
        lemma_linked_keeps(points, b, i, nb, m, c);
        assert forall|x: u32, y: u32| #[trigger] edge(adj, x, y) implies edge(out, x, y) by {
            assert(edge(b, x, y));
        }
        assert forall|j: int| 0 <= j < chosen.len() implies edge(out, (#[trigger] chosen[j]).1, i) by {
            if j < t.len() {
                assert(edge(b, t[j].1, i));
            }
        }
    }
}

/// In a graph of no more than `2 * m + 1` nodes, the first node leads to every
/// node that was inserted.
pub proof fn lemma_grown_connected<R: Scalar>(
    points: Seq<Seq<R>>,
    m: nat,
    ef: usize,
    count: nat,
    id: u32,
)
    requires
        id < count <= points.len() <= 0x1_0000_0000,
        points.len() <= 2 * m + 1,
        m >= 1,
        ef >= 1,
    ensures
        reachable(grown(points, m, ef, count), 0, id),
    decreases count,
{
    if count <= 1 {
        lemma_reach_self(grown(points, m, ef, count), 0);
    } else {
        let c = (count - 1) as nat;
        let adj = grown(points, m, ef, c);
        let i = c as u32;
        let chosen = chosen_for(points, adj, i, m, ef);
        let b = linked_all(points, adj, i, chosen, m);
        let out = grown(points, m, ef, count);
        lemma_grown_within(points, m, ef, c);
        lemma_within_graph(adj, c, points.len());
        lemma_chosen(points, adj, i, m, ef);
        lemma_linked_all(points, adj, i, chosen, m, count);
        lemma_linked_all_keeps(points, adj, i, chosen, m, count);
        let nodes = near(points, points[i as int], Some(i));
        lemma_search_from(nodes, taking(ef), adj, 0);
        let found = search_from(nodes, taking(ef), adj, 0);
        assert(nodes.admits(0));
        assert(chosen.len() > 0 && chosen[0] == found[0]);
        assert(out == b);
        if id < c {
            lemma_grown_connected(points, m, ef, c, id);
            lemma_reach_subgraph(adj, out, 0, id);
        } else {
            assert(reachable(adj, 0, found[0].1));
            lemma_reach_subgraph(adj, out, 0, chosen[0].1);
            lemma_reach_step(out, 0, chosen[0].1, i);
        }
    }
}

/// A wide search of a small graph finds a vector, unless it finds `k` others that
/// are no farther.
pub proof fn lemma_nsw_finds<R: Scalar>(
    vectors: Seq<Seq<R>>,
    ids: Seq<u32>,
    params: NswParams,
    q: Seq<R>,
    k: usize,
    j: int,
)
    requires
        0 <= j < ids.len() <= 0x1_0000_0000,
        ids.len() <= 2 * params.m + 1,
        ids.len() <= greatest(params.ef_search, k),
        params.m >= 1,
        params.ef_construction >= 1,
    ensures
        ({
            let found = nsw_hits(vectors, ids, params, q, k);
            let d = sq_l2_of(q, vectors[ids[j] as int]);
            found.contains((ids[j] as usize, d)) || (found.len() == k && forall|i: int|
                0 <= i < found.len() ==> (#[trigger] found[i]).1.key_of() <= d.key_of())
        }),
{
    let points = picked(vectors, ids);
    let m = params.m as nat;
    let adj = grown(points, m, params.ef_construction, ids.len());
    let ef = greatest(params.ef_search, k);
    let space = near(points, q, None);
    let nodes = nsw_nodes(points, adj, q, ef);
    let found = nsw_hits(vectors, ids, params, q, k);
    let id = j as u32;
    lemma_grown(points, m, params.ef_construction, ids.len());
    lemma_grown_connected(points, m, params.ef_construction, ids.len(), id);
    lemma_search_from(space, taking(ef), adj, 0);
    lemma_search_from_exact(space, taking(ef), adj, 0, id);
    assert(space.admits(id));
    assert(nodes.contains((space.rank_of(id), id)));
    let z = choose|z: int| 0 <= z < nodes.len() && nodes[z] == (space.rank_of(id), id);
    let d = sq_l2_of(q, vectors[ids[j] as int]);
    assert(points[j] == vectors[ids[j] as int]);
    if z < k {
        assert(found[z] == (ids[j] as usize, d));
    } else {
        assert forall|i: int| 0 <= i < found.len() implies (#[trigger] found[i]).1.key_of()
            <= d.key_of() by {
            assert(nodes[i].0 <= nodes[z].0);
            assert(nodes[i].0 == space.rank_of(nodes[i].1));
        }
    }
}

/// A search finds vectors of the graph, each with its distance, by ascending
/// distance, and `k` of them at most. It finds one if there is any. If no vector
/// is listed twice, none is found twice.
pub proof fn lemma_nsw_hits<R: Scalar>(
    vectors: Seq<Seq<R>>,
    ids: Seq<u32>,
    params: NswParams,
    q: Seq<R>,
    k: usize,
)
    requires
        ids.len() <= 0x1_0000_0000,
    ensures
        ({
            let found = nsw_hits(vectors, ids, params, q, k);
            &&& found.len() <= k
            &&& k > 0 && ids.len() > 0 ==> found.len() > 0
            &&& forall|i: int|
                0 <= i < found.len() ==> {
                    let x = #[trigger] found[i];
                    &&& x.0 <= u32::MAX
                    &&& ids.contains(x.0 as u32)
                    &&& x.1 == sq_l2_of(q, vectors[x.0 as int])
                }
            &&& forall|i: int, j: int|
                0 <= i <= j < found.len() ==> (#[trigger] found[i]).1.key_of() <= (
                #[trigger] found[j]).1.key_of()
            &&& ids.no_duplicates() ==> forall|i: int, j: int|
                0 <= i < j < found.len() ==> (#[trigger] found[i]).0 != (#[trigger] found[j]).0
        }),
{
    let points = picked(vectors, ids);
    let adj = grown(points, params.m as nat, params.ef_construction, ids.len());
    let ef = greatest(params.ef_search, k);
    let found = nsw_hits(vectors, ids, params, q, k);
    if ids.len() > 0 {
        lemma_grown(points, params.m as nat, params.ef_construction, ids.len());
        lemma_search_from(near(points, q, None), taking(ef), adj, 0);
        let nodes = nsw_nodes(points, adj, q, ef);
        assert forall|i: int| 0 <= i < found.len() implies {
            let x = #[trigger] found[i];
            &&& x.0 <= u32::MAX
            &&& ids.contains(x.0 as u32)
            &&& x.1 == sq_l2_of(q, vectors[x.0 as int])
            &&& x.1.key_of() == nodes[i].0
        } by {
            assert(nodes[i].1 < ids.len());
            assert(ids.contains(ids[nodes[i].1 as int]));
        }
        assert forall|i: int, j: int| 0 <= i <= j < found.len() implies (
        #[trigger] found[i]).1.key_of() <= (#[trigger] found[j]).1.key_of() by {
            assert(nodes[i].0 <= nodes[j].0);
        }
        if ids.no_duplicates() {
            assert forall|i: int, j: int| 0 <= i < j < found.len() implies (#[trigger] found[i]).0
                != (#[trigger] found[j]).0 by {
                assert(nodes[i].1 != nodes[j].1);
                assert(nodes[i].1 < ids.len() && nodes[j].1 < ids.len());
            }
        }
    }
}

/// A graph over the vectors `ids` of a shared collection. Node `i` stands for
/// vector `ids[i]`.
pub struct Nsw<R> {
    pub vectors: Arc<Vec<Vec<R>>>,
    pub ids: Vec<u32>,
    adj: Vec<Vec<u32>>,
    entry: Option<u32>,
    params: NswParams,
}

impl<R: Scalar> Nsw<R> {
    /// The adjacency lists.
    pub closed spec fn lists(&self) -> Seq<Seq<u32>> {
        rows(self.adj@)
    }

    /// The parameters.
    pub closed spec fn settings(&self) -> NswParams {
        self.params
    }

    /// The vectors of the collection.
    pub closed spec fn all(&self) -> Seq<Seq<R>> {
        rows(self.vectors@)
    }

    /// The positions of the vectors that the nodes stand for.
    pub closed spec fn numbers(&self) -> Seq<u32> {
        self.ids@
    }

    /// The vectors that the nodes stand for.
    pub open spec fn points(&self) -> Seq<Seq<R>> {
        picked(self.all(), self.numbers())
    }

    /// The vectors exist, and the graph is the one that building gives.
    pub closed spec fn valid(&self) -> bool {
        &&& self.ids@.len() <= 0x1_0000_0000
        &&& listed_below(self.ids@, self.vectors@.len())
        &&& self.lists() == grown(
            self.points(),
            self.params.m as nat,
            self.params.ef_construction,
            self.ids@.len(),
        )
        &&& self.entry == if self.ids@.len() == 0 {
            None::<u32>
        } else {
            Some(0u32)
        }
    }

    /// What a valid graph is.
    pub proof fn lemma_valid(&self)
        requires
            self.valid(),
        ensures
            self.numbers().len() <= 0x1_0000_0000,
            listed_below(self.numbers(), self.all().len()),
            self.lists() == grown(
                self.points(),
                self.settings().m as nat,
                self.settings().ef_construction,
                self.numbers().len(),
            ),
    {
    }

    /// Builds the graph.
    pub fn build(vectors: Arc<Vec<Vec<R>>>, ids: Vec<u32>, params: NswParams) -> (g: Self)
        requires
            listed_below(ids@, vectors@.len()),
            ids@.len() <= 0x1_0000_0000,
        ensures
            g.valid(),
            g.all() == rows(vectors@),
            g.numbers() == ids@,
            g.settings() == params,
    {
        let n: usize = ids.len();
        let adj: Vec<Vec<u32>> = empty_rows(n);
        let mut s = Nsw { vectors, ids, adj, entry: None, params };
        let ghost points = s.points();
        if n > 0 {
            s.entry = Some(0);
            let mut i: usize = 1;
            while i < n
                invariant
                    1 <= i <= n,
                    n <= 0x1_0000_0000,
                    n == s.ids@.len(),
                    s.vectors == vectors,
                    s.ids == ids,
                    s.params == params,
                    s.entry == Some(0u32),
                    points == s.points(),
                    listed_below(ids@, vectors@.len()),
                    s.lists() == grown(points, params.m as nat, params.ef_construction, i as nat),
                decreases n - i,
            {
                s.insert(i as u32);
                i += 1;
            }
        }
        s
    }

    /// Inserts a node, after those with smaller numbers.
    fn insert(&mut self, new_local: u32)
        requires
            0 < new_local < old(self).ids@.len() <= 0x1_0000_0000,
            old(self).entry == Some(0u32),
            listed_below(old(self).ids@, old(self).vectors@.len()),
            old(self).lists() == grown(
                old(self).points(),
                old(self).params.m as nat,
                old(self).params.ef_construction,
                new_local as nat,
            ),
        ensures
            final(self).vectors == old(self).vectors,
            final(self).ids == old(self).ids,
            final(self).params == old(self).params,
            final(self).entry == old(self).entry,
            final(self).lists() == grown(
                old(self).points(),
                old(self).params.m as nat,
                old(self).params.ef_construction,
                new_local as nat + 1,
            ),
    {
        let ghost points = self.points();
        let ghost adj = self.lists();
        let m: usize = self.params.m;
        let ef: usize = self.params.ef_construction;
        let n: usize = self.ids.len();
        proof {
            lemma_grown_within(points, m as nat, ef, new_local as nat);
            lemma_within_graph(adj, new_local as nat, n as nat);
            lemma_chosen(points, adj, new_local, m as nat, ef);
            assert(self.ids@[new_local as int] < self.vectors@.len());
        }
        let at: u32 = self.ids[new_local as usize];
        let found = self.search_layer(
            self.vectors[at as usize].as_slice(),
            0,
            ef,
            Some(new_local),
        );
        let ghost chosen = chosen_for(points, adj, new_local, m as nat, ef);
        let count: usize = if m < found.len() {
            m
        } else {
            found.len()
        };
        assert(chosen.take(0) =~= Seq::empty());
        let mut j: usize = 0;
        while j < count
            invariant
                n == self.ids@.len(),
                0 < new_local < n <= 0x1_0000_0000,
                m == self.params.m,
                self.vectors == old(self).vectors,
                self.ids == old(self).ids,
                self.params == old(self).params,
                self.entry == old(self).entry,
                points == self.points(),
                listed_below(self.ids@, self.vectors@.len()),
                adj.len() == n,
                within(adj, new_local as nat),
                tidy(adj, most_neighbours(m as nat)),
                j <= count,
                count == chosen.len(),
                count <= found@.len(),
                count <= m,
                chosen == first_n(found@, m as nat),
                forall|j: int| 0 <= j < chosen.len() ==> (#[trigger] chosen[j]).1 < new_local,
                forall|x: int, y: int|
                    0 <= x < y < chosen.len() ==> (#[trigger] chosen[x]).1 != (#[trigger] chosen[y]).1,
                self.lists() == linked_all(
                    points,
                    adj,
                    new_local,
                    chosen.take(j as int),
                    m as nat,
                ),
            decreases count - j,
        {
            proof {
                let t = chosen.take(j as int);
                assert(chosen[j as int] == found@[j as int]);
                assert(chosen.take(j + 1).drop_last() =~= t);
                assert(chosen.take(j + 1).last() == chosen[j as int]);
                lemma_linked_all(points, adj, new_local, t, m as nat, new_local as nat + 1);
                lemma_within_graph(self.lists(), new_local as nat + 1, n as nat);
            }
            self.link(new_local, found[j].1);
            j += 1;
        }
        proof {
            assert(chosen.take(count as int) =~= chosen);
            lemma_linked_all(points, adj, new_local, chosen, m as nat, new_local as nat + 1);
            assert(self.lists()[new_local as int] == self.adj@[new_local as int]@);
        }
        let ghost done = self.lists();
        if self.adj[new_local as usize].len() == 0 {
            self.adj[new_local as usize].push(0);
            proof {
                assert(self.lists() =~= anchored(done, new_local));
            }
        }
    }

    /// Joins new node `i` to node `nb`, in both directions.
    fn link(&mut self, i: u32, nb: u32)
        requires
            is_graph(old(self).lists(), old(self).ids@.len()),
            listed_below(old(self).ids@, old(self).vectors@.len()),
            i < old(self).ids@.len(),
            nb < old(self).ids@.len(),
        ensures
            final(self).vectors == old(self).vectors,
            final(self).ids == old(self).ids,
            final(self).params == old(self).params,
            final(self).entry == old(self).entry,
            final(self).lists() == linked(
                old(self).points(),
                old(self).lists(),
                i,
                nb,
                old(self).params.m as nat,
            ),
    {
        let m: usize = self.params.m;
        let ghost points = self.points();
        let ghost adj = self.lists();
        let ghost n = self.ids@.len();
        assert(adj[i as int] == self.adj@[i as int]@);
        self.adj[i as usize].push(nb);
        let ghost there = adj.update(i as int, adj[i as int].push(nb));
        assert(self.lists() =~= there);
        assert(there[nb as int] == self.adj@[nb as int]@);
        self.adj[nb as usize].push(i);
        let ghost longer = there[nb as int].push(i);
        assert(self.adj@[nb as int]@ == longer);
        let len: usize = self.adj[nb as usize].len();
        if len > m && len - m > m {
            proof {
                assert(listed_below(adj[nb as int], n));
                assert forall|x: int| 0 <= x < longer.len() implies (#[trigger] longer[x]) < n by {
                    if x < adj[nb as int].len() {
                        assert(adj[nb as int][x] < n);
                    }
                }
                assert(self.ids@[nb as int] < self.vectors@.len());
            }
            let at: u32 = self.ids[nb as usize];
            let space = Near {
                q: self.vectors[at as usize].as_slice(),
                vectors: &self.vectors,
                ids: &self.ids,
                excluded: None,
            };
            assert(space.nodes() == near(points, points[nb as int], None));
            let short = select_nearest(&space, self.adj[nb as usize].as_slice(), m);
            self.adj.set(nb as usize, short);
        }
        assert(self.lists() =~= linked(points, adj, i, nb, m as nat));
    }

    /// Searches for the nodes nearest to `q`, from node `start`. A node that is
    /// excluded is only walked through.
    fn search_layer(&self, q: &[R], start: u32, ef: usize, exclude: Option<u32>) -> (r: Vec<
        (u64, u32),
    >)
        requires
            is_graph(self.lists(), self.ids@.len()),
            listed_below(self.ids@, self.vectors@.len()),
            start < self.ids@.len(),
        ensures
            r@ == search_from(
                near(self.points(), q@, exclude),
                taking(ef),
                self.lists(),
                start,
            ),
    {
        let space = Near { q, vectors: &self.vectors, ids: &self.ids, excluded: exclude };
        search_one(&space, take_rules(ef), &self.adj, start)
    }

    /// Finds the `k` vectors nearest to `q`: positions and distances.
    pub fn search(&self, q: &[R], k: usize) -> (found: Vec<(usize, R)>)
        requires
            self.valid(),
        ensures
            found@ == nsw_hits(self.all(), self.numbers(), self.settings(), q@, k),
    {
        let ghost points = self.points();
        let ghost adj = self.lists();
        let ef: usize = if self.params.ef_search < k {
            k
        } else {
            self.params.ef_search
        };
        proof {
            lemma_grown(
                points,
                self.params.m as nat,
                self.params.ef_construction,
                self.ids@.len(),
            );
        }
        let nodes: Vec<(u64, u32)> = match self.entry {
            Some(entry) => {
                proof {
                    lemma_search_from(near(points, q@, None), taking(ef), adj, entry);
                }
                self.search_layer(q, entry, ef, None)
            },
            None => Vec::new(),
        };
        assert(nodes@ =~= nsw_nodes(points, adj, q@, ef));
        let count: usize = if k < nodes.len() {
            k
        } else {
            nodes.len()
        };
        let ghost want = nsw_hits(rows(self.vectors@), self.ids@, self.settings(), q@, k);
        let mut found: Vec<(usize, R)> = Vec::new();
        let mut i: usize = 0;
        while i < count
            invariant
                i <= count,
                count == want.len(),
                count <= nodes@.len(),
                listed_below(self.ids@, self.vectors@.len()),
                forall|i: int| 0 <= i < nodes@.len() ==> (#[trigger] nodes@[i]).1 < self.ids@.len(),
                want == as_found(
                    rows(self.vectors@),
                    self.ids@,
                    q@,
                    first_n(nodes@, k as nat),
                ),
                found@ =~= want.take(i as int),
            decreases count - i,
        {
            let local: u32 = nodes[i].1;
            proof {
                assert(nodes@[i as int].1 < self.ids@.len());
                assert(self.ids@[local as int] < self.vectors@.len());
            }
            let id: u32 = self.ids[local as usize];
            let d: R = sq_l2(q, self.vectors[id as usize].as_slice());
            found.push((id as usize, d));
            i += 1;
        }
        assert(want.take(count as int) =~= want);
        found
    }

    /// What the lists have room for.
    pub(crate) fn rooms(&self) -> (r: Vec<usize>)
        ensures
            rooms_fit(self.lists(), r@),
    {
        rooms_of(self.adj.as_slice())
    }

    /// The bytes that the lists hold, or the greatest number where these do not
    /// fit: four for each neighbour that there is room for, and a header for each
    /// list on a machine with eight-byte words. How much room there is beyond
    /// what is used, the allocator decides.
    pub fn adj_bytes(&self) -> (r: usize)
        ensures
            r >= clamped(4 * cells(self.lists()) + 24 * self.lists().len()),
            exists|rooms: Seq<usize>| #[trigger]
                rooms_fit(self.lists(), rooms) && r == clamped(held(rooms, 24)),
    {
        let rooms = self.rooms();
        proof {
            lemma_rooms_fit(self.lists(), rooms@);
        }
        bytes_for(rooms.as_slice(), 24)
    }
}

/// The numbers of the chosen nodes.
spec fn chosen_ids(chosen: Seq<(u64, u32)>) -> Seq<u32> {
    Seq::new(chosen.len(), |j: int| chosen[j].1)
}

proof fn lemma_own_list<R: Scalar>(
    points: Seq<Seq<R>>,
    adj: Seq<Seq<u32>>,
    i: u32,
    chosen: Seq<(u64, u32)>,
    m: nat,
)
    requires
        adj.len() == points.len(),
        i < points.len(),
        adj[i as int].len() == 0,
        forall|j: int| 0 <= j < chosen.len() ==> (#[trigger] chosen[j]).1 < i,
    ensures
        linked_all(points, adj, i, chosen, m).len() == adj.len(),
        linked_all(points, adj, i, chosen, m)[i as int] == chosen_ids(chosen),
    decreases chosen.len(),
{
    if chosen.len() == 0 {
        assert(adj[i as int] =~= chosen_ids(chosen));
    } else {
        let t = chosen.drop_last();
        assert forall|j: int| 0 <= j < t.len() implies (#[trigger] t[j]).1 < i by {
            assert(t[j] == chosen[j]);
        }
        lemma_own_list(points, adj, i, t, m);
        let last = chosen[chosen.len() - 1].1;
        assert(last < i);
        assert(chosen_ids(t).push(last) =~= chosen_ids(chosen));
    }
}

/// A node that is inserted is joined to the nodes that a search for it finds, as far as
/// it may have neighbours, and to the nearest of them; to the first node where there
/// are none. Where the search is as wide as the graph, they are the nearest of all nodes
/// that it leads to.
pub proof fn lemma_new_node<R: Scalar>(points: Seq<Seq<R>>, m: nat, ef: usize, count: nat)
    requires
        2 <= count <= points.len() <= 0x1_0000_0000,
    ensures
        ({
            let i = (count - 1) as u32;
            let adj = grown(points, m, ef, (count - 1) as nat);
            let q = points[i as int];
            let space = near(points, q, Some(i));
            let found = search_from(space, taking(ef), adj, 0);
            let list = grown(points, m, ef, count)[i as int];
            let most = if m <= found.len() {
                m
            } else {
                found.len()
            };
            &&& most == 0 ==> list == seq![0u32]
            &&& most > 0 ==> list.len() == most
            &&& forall|j: int| 0 <= j < list.len() ==> (#[trigger] list[j]) < i
            &&& forall|j: int, x: int|
                0 <= j < most && 0 <= x < found.len() && !list.contains((#[trigger] found[x]).1)
                    ==> sq_l2_of(q, points[#[trigger] list[j] as int]).key_of() <= found[x].0
            &&& forall|j: int, x: u32|
                ef >= points.len() && 0 <= j < most && x != i && #[trigger] reachable(adj, 0, x)
                    && !list.contains(x) ==> sq_l2_of(q, points[#[trigger] list[j] as int]).key_of()
                    <= sq_l2_of(q, points[x as int]).key_of()
        }),
{
    let c = (count - 1) as nat;
    let i = c as u32;
    let adj = grown(points, m, ef, c);
    let q = points[i as int];
    let space = near(points, q, Some(i));
    let found = search_from(space, taking(ef), adj, 0);
    let chosen = chosen_for(points, adj, i, m, ef);
    let list = grown(points, m, ef, count)[i as int];
    lemma_grown_within(points, m, ef, c);
    lemma_within_graph(adj, c, points.len());
    lemma_search_from(space, taking(ef), adj, 0);
    lemma_chosen(points, adj, i, m, ef);
    assert(adj[i as int].len() == 0);
    lemma_own_list(points, adj, i, chosen, m);
    let most = chosen.len();
    if most == 0 {
        assert(chosen_ids(chosen).push(0) =~= seq![0u32]);
    } else {
        assert(list == chosen_ids(chosen));
    }
    assert forall|j: int| 0 <= j < most implies (#[trigger] list[j]) < i && list[j]
        == found[j].1 by {
        assert(list[j] == chosen[j].1);
    }
    assert forall|j: int, x: int|
        0 <= j < most && 0 <= x < found.len() && !list.contains(
            (#[trigger] found[x]).1,
        ) implies sq_l2_of(q, points[#[trigger] list[j] as int]).key_of() <= found[x].0 by {
        if x < most {
            assert(list[x] == found[x].1);
        }
        assert(found[j].0 == space.rank_of(found[j].1));
        assert(found[j].0 <= found[x].0);
    }
    assert forall|j: int, x: u32|
        ef >= points.len() && 0 <= j < most && x != i && #[trigger] reachable(adj, 0, x)
            && !list.contains(x) implies sq_l2_of(q, points[#[trigger] list[j] as int]).key_of()
        <= sq_l2_of(q, points[x as int]).key_of() by {
        crate::beam_laws::lemma_search_from_exact(space, taking(ef), adj, 0, x);
        assert(space.admits(x));
        let y = choose|y: int| 0 <= y < found.len() && found[y] == (space.rank_of(x), x);
        assert(found[y].1 == x);
    }
}

} // verus!
