//! Graph construction from training queries.
//!
//! Base vectors that are near one training query become neighbours of each
//! other. Each list is cut to the nearest ones, and nodes that node 0 does not
//! lead to are joined to the nearest node that it does lead to.

use vstd::prelude::*;

use crate::beam::{is_graph, lemma_below_len, listed_below, Nodes};
use crate::idlist::{lemma_sorted_set, sort_dedup, sorted_set};
use crate::metric::Distance;
use crate::reach::{
    edge, lemma_reach_closed, lemma_reach_self, lemma_reach_step, lemma_reach_subgraph, reachable,
    subgraph,
};
use crate::roargraph::error::RoarError;
use crate::roargraph::graph::RoarGraph;
use crate::roargraph::knn::{lemma_others, others};
use crate::scalar::Scalar;
use crate::sorting::{lemma_stable_sort, lemma_top_k, select_top_k, stable_sort, top_k};
use crate::spaces::{
    excluding, lemma_nearest, nearest, payloads, select_nearest, take_payloads, Excluding,
};
use crate::table::{empty_rows, rows};

verus! {

/// How a graph is built.
#[derive(Debug, Clone, Copy)]
pub struct BuildParams {
    /// The number of base vectors per training query.
    pub k_train: usize,
    /// The most neighbours of a node before nodes are joined.
    pub max_degree: usize,
}

impl Default for BuildParams {
    fn default() -> (r: Self)
        ensures
            r.k_train == 20,
            r.max_degree == 32,
    {
        BuildParams { k_train: 20, max_degree: 32 }
    }
}

/// The distance of each vector to a query, with the number of the vector.
pub open spec fn distances<T, D: Distance<T>>(
    metric: D,
    query: Seq<T>,
    vectors: Seq<Seq<T>>,
) -> Seq<(u64, u32)> {
    Seq::new(vectors.len(), |i: int| (metric.spec_key(query, vectors[i]), i as u32))
}

/// The `k` vectors nearest to a query.
pub open spec fn near<T, D: Distance<T>>(
    metric: D,
    query: Seq<T>,
    vectors: Seq<Seq<T>>,
    k: nat,
) -> Seq<u32> {
    payloads(top_k(distances(metric, query, vectors), k))
}

/// The vectors nearest to each query.
pub open spec fn near_all<T, D: Distance<T>>(
    metric: D,
    queries: Seq<Seq<T>>,
    vectors: Seq<Seq<T>>,
    k: nat,
) -> Seq<Seq<u32>> {
    Seq::new(queries.len(), |i: int| near(metric, queries[i], vectors, k))
}

/// What else is in those of the first `n` lists that hold `v`.
pub open spec fn company(lists: Seq<Seq<u32>>, v: u32, n: nat) -> Seq<u32>
    decreases n,
{
    if n == 0 {
        Seq::empty()
    } else {
        let rest = company(lists, v, (n - 1) as nat);
        if lists[n - 1].contains(v) {
            rest + others(lists[n - 1], v)
        } else {
            rest
        }
    }
}

/// The vectors that share a list with `v`, in ascending order.
pub open spec fn projection(lists: Seq<Seq<u32>>, v: u32) -> Seq<u32> {
    sorted_set(company(lists, v, lists.len()))
}

/// `v` as its neighbours see it.
pub open spec fn seen_from<T, D: Distance<T>>(metric: D, vectors: Seq<Seq<T>>, v: int) -> Nodes {
    excluding(metric, vectors[v], vectors, Seq::empty())
}

/// The graph before nodes are joined: each node with the nearest of the vectors
/// that share a list with it.
pub open spec fn projected<T, D: Distance<T>>(
    metric: D,
    vectors: Seq<Seq<T>>,
    lists: Seq<Seq<u32>>,
    max_degree: nat,
) -> Seq<Seq<u32>> {
    Seq::new(
        vectors.len(),
        |v: int| nearest(seen_from(metric, vectors, v), projection(lists, v as u32), max_degree),
    )
}

/// The nearest to `u` of the marked ones among the first `n` nodes; of several
/// the first one.
pub open spec fn nearest_marked<T, D: Distance<T>>(
    metric: D,
    vectors: Seq<Seq<T>>,
    marked: Seq<bool>,
    u: int,
    n: nat,
) -> Option<u32>
    decreases n,
{
    if n == 0 {
        None
    } else {
        let best = nearest_marked(metric, vectors, marked, u, (n - 1) as nat);
        let nearer = match best {
            None => true,
            Some(b) => metric.spec_key(vectors[u], vectors[n - 1]) < metric.spec_key(
                vectors[u],
                vectors[b as int],
            ),
        };
        if marked[n - 1] && nearer {
            Some((n - 1) as u32)
        } else {
            best
        }
    }
}

/// A graph, and the nodes that node 0 is known to lead to.
pub ghost struct Joining {
    pub adj: Seq<Seq<u32>>,
    pub marked: Seq<bool>,
}

/// Joins node `u` to the nearest marked one, unless it is marked.
pub open spec fn joined_node<T, D: Distance<T>>(
    metric: D,
    vectors: Seq<Seq<T>>,
    j: Joining,
    u: int,
) -> Joining {
    if j.marked[u] {
        j
    } else {
        match nearest_marked(metric, vectors, j.marked, u, vectors.len()) {
            None => j,
            Some(b) => {
                let forth = j.adj.update(u, j.adj[u].push(b));
                Joining {
                    adj: forth.update(b as int, forth[b as int].push(u as u32)),
                    marked: j.marked.update(u, true),
                }
            },
        }
    }
}

/// Joins the first `n` nodes.
pub open spec fn joined_nodes<T, D: Distance<T>>(
    metric: D,
    vectors: Seq<Seq<T>>,
    j: Joining,
    n: nat,
) -> Joining
    decreases n,
{
    if n == 0 {
        j
    } else {
        joined_node(
            metric,
            vectors,
            joined_nodes(metric, vectors, j, (n - 1) as nat),
            n - 1,
        )
    }
}

/// The nodes that node 0 leads to.
pub open spec fn reached_marks(adj: Seq<Seq<u32>>) -> Seq<bool> {
    Seq::new(adj.len(), |i: int| reachable(adj, 0, i as u32))
}

/// The graph that is built from training queries.
pub open spec fn built_graph<T, D: Distance<T>>(
    metric: D,
    vectors: Seq<Seq<T>>,
    queries: Seq<Seq<T>>,
    k_train: nat,
    max_degree: nat,
) -> Seq<Seq<u32>> {
    let base = projected(
        metric,
        vectors,
        near_all(metric, queries, vectors, k_train),
        max_degree,
    );
    joined_nodes(
        metric,
        vectors,
        Joining { adj: base, marked: reached_marks(base) },
        vectors.len(),
    ).adj
}

/// Every node has a path from node 0.
pub open spec fn connected(adj: Seq<Seq<u32>>) -> bool {
    forall|id: u32| id < adj.len() ==> #[trigger] reachable(adj, 0, id)
}

proof fn lemma_near<T, D: Distance<T>>(metric: D, query: Seq<T>, vectors: Seq<Seq<T>>, k: nat)
    requires
        vectors.len() <= 0x1_0000_0000,
    ensures
        listed_below(near(metric, query, vectors, k), vectors.len()),
        near(metric, query, vectors, k).no_duplicates(),
{
    let all = distances(metric, query, vectors);
    let list = near(metric, query, vectors, k);
    lemma_top_k(all, k);
    lemma_stable_sort(all);
    let top = top_k(all, k);
    let sorted = stable_sort(all);
    assert(all.no_duplicates()) by {
        assert forall|i: int, j: int|
            0 <= i < all.len() && 0 <= j < all.len() && i != j implies all[i] != all[j] by {}
    }
    all.lemma_multiset_has_no_duplicates();
    sorted.lemma_multiset_has_no_duplicates_conv();
    assert forall|i: int| 0 <= i < list.len() implies (#[trigger] list[i]) < vectors.len() by {
        assert(all.contains(top[i]));
    }
    assert forall|i: int, j: int|
        0 <= i < list.len() && 0 <= j < list.len() && i != j implies list[i] != list[j] by {
        assert(all.contains(top[i]) && all.contains(top[j]));
        assert(sorted[i] != sorted[j]);
    }
}

/// `u` is in the company of `v` exactly if some list holds both and they differ.
pub proof fn lemma_company(lists: Seq<Seq<u32>>, v: u32, u: u32, n: nat)
    requires
        n <= lists.len(),
    ensures
        company(lists, v, n).contains(u) <==> u != v && exists|i: int|
            0 <= i < n && (#[trigger] lists[i]).contains(v) && lists[i].contains(u),
    decreases n,
{
    if n > 0 {
        lemma_company(lists, v, u, (n - 1) as nat);
        let list = lists[n - 1];
        let rest = company(lists, v, (n - 1) as nat);
        let now = company(lists, v, n);
        lemma_others(list, v);
        lemma_others_keeps(list, v, u);
        if now.contains(u) {
            let x = choose|x: int| 0 <= x < now.len() && now[x] == u;
            if x < rest.len() {
                assert(rest[x] == u);
                assert(rest.contains(u));
            } else {
                let y = x - rest.len();
                assert(others(list, v)[y] == u);
                assert(list.contains(u));
                assert(lists[n - 1].contains(v));
            }
        }
        if u != v && exists|i: int|
            0 <= i < n && (#[trigger] lists[i]).contains(v) && lists[i].contains(u) {
            let i = choose|i: int|
                0 <= i < n && (#[trigger] lists[i]).contains(v) && lists[i].contains(u);
            if i < n - 1 {
                assert(rest.contains(u));
                let x = choose|x: int| 0 <= x < rest.len() && rest[x] == u;
                assert(now[x] == u);
            } else {
                assert(others(list, v).contains(u));
                let y = choose|y: int| 0 <= y < others(list, v).len() && others(list, v)[y] == u;
                assert(now[rest.len() + y] == u);
            }
        }
    }
}

proof fn lemma_others_keeps(list: Seq<u32>, v: u32, u: u32)
    ensures
        u != v && list.contains(u) ==> others(list, v).contains(u),
    decreases list.len(),
{
    if u != v && list.contains(u) {
        let t = list.drop_last();
        let x = choose|x: int| 0 <= x < list.len() && list[x] == u;
        lemma_others_keeps(t, v, u);
        if x < t.len() {
            assert(t[x] == u);
            assert(t.contains(u));
            let y = choose|y: int| 0 <= y < others(t, v).len() && others(t, v)[y] == u;
            assert(others(list, v)[y] == u);
        } else {
            assert(others(list, v)[others(list, v).len() - 1] == u);
        }
    }
}

/// The projection is symmetric: `u` is projected to `v` exactly if `v` is
/// projected to `u`.
pub proof fn lemma_projection_symmetric(lists: Seq<Seq<u32>>, u: u32, v: u32)
    ensures
        projection(lists, v).contains(u) <==> projection(lists, u).contains(v),
{
    lemma_sorted_set(company(lists, v, lists.len()));
    lemma_sorted_set(company(lists, u, lists.len()));
    lemma_company(lists, v, u, lists.len());
    lemma_company(lists, u, v, lists.len());
    if projection(lists, v).contains(u) {
        let i = choose|i: int|
            0 <= i < lists.len() && (#[trigger] lists[i]).contains(v) && lists[i].contains(u);
        assert(lists[i].contains(u) && lists[i].contains(v));
    }
    if projection(lists, u).contains(v) {
        let i = choose|i: int|
            0 <= i < lists.len() && (#[trigger] lists[i]).contains(u) && lists[i].contains(v);
        assert(lists[i].contains(v) && lists[i].contains(u));
    }
}

/// The graph before nodes are joined: neighbours exist, no node is its own
/// neighbour, none is listed twice, and none has more than `max_degree`.
pub proof fn lemma_projected<T, D: Distance<T>>(
    metric: D,
    vectors: Seq<Seq<T>>,
    lists: Seq<Seq<u32>>,
    max_degree: nat,
)
    requires
        vectors.len() <= 0x1_0000_0000,
        forall|i: int| 0 <= i < lists.len() ==> listed_below(#[trigger] lists[i], vectors.len()),
    ensures
        is_graph(projected(metric, vectors, lists, max_degree), vectors.len()),
        forall|v: int|
            0 <= v < vectors.len() ==> {
                let list = #[trigger] projected(metric, vectors, lists, max_degree)[v];
                list.len() <= max_degree && list.no_duplicates() && !list.contains(v as u32)
            },
{
    let adj = projected(metric, vectors, lists, max_degree);
    let n = vectors.len();
    assert forall|v: int| 0 <= v < n implies listed_below(#[trigger] adj[v], n) && adj[v].len()
        <= max_degree && adj[v].no_duplicates() && !adj[v].contains(v as u32) by {
        let list = projection(lists, v as u32);
        let nodes = seen_from(metric, vectors, v);
        lemma_nearest(nodes, list, max_degree);
        lemma_sorted_set(company(lists, v as u32, lists.len()));
        assert forall|x: int| 0 <= x < adj[v].len() implies (#[trigger] adj[v][x]) < n && adj[v][x]
            != v by {
            let u = adj[v][x];
            assert(list.contains(u));
            lemma_company(lists, v as u32, u, lists.len());
            let i = choose|i: int|
                0 <= i < lists.len() && (#[trigger] lists[i]).contains(v as u32)
                    && lists[i].contains(u);
            assert(listed_below(lists[i], n));
            let y = choose|y: int| 0 <= y < lists[i].len() && lists[i][y] == u;
            assert(lists[i][y] < n);
        }
    }
}

/// The nearest marked node is marked, and no marked node is nearer.
pub proof fn lemma_nearest_marked<T, D: Distance<T>>(
    metric: D,
    vectors: Seq<Seq<T>>,
    marked: Seq<bool>,
    u: int,
    n: nat,
)
    requires
        n <= vectors.len() <= 0x1_0000_0000,
        marked.len() == vectors.len(),
    ensures
        match nearest_marked(metric, vectors, marked, u, n) {
            None => forall|i: int| 0 <= i < n ==> !(#[trigger] marked[i]),
            Some(b) => b < n && marked[b as int] && forall|i: int|
                0 <= i < n && #[trigger] marked[i] ==> metric.spec_key(
                    vectors[u],
                    vectors[b as int],
                ) <= metric.spec_key(vectors[u], vectors[i]),
        },
    decreases n,
{
    if n > 0 {
        lemma_nearest_marked(metric, vectors, marked, u, (n - 1) as nat);
    }
}

/// No node is its own neighbour.
pub open spec fn no_loops(adj: Seq<Seq<u32>>) -> bool {
    forall|i: int| 0 <= i < adj.len() ==> !(#[trigger] adj[i]).contains(i as u32)
}

/// Node 0 leads to every marked node.
spec fn marks_hold(j: Joining) -> bool {
    &&& j.marked.len() == j.adj.len()
    &&& forall|i: int| 0 <= i < j.marked.len() && #[trigger] j.marked[i] ==> reachable(
        j.adj,
        0,
        i as u32,
    )
}

proof fn lemma_joined_node<T, D: Distance<T>>(
    metric: D,
    vectors: Seq<Seq<T>>,
    j: Joining,
    u: int,
)
    requires
        is_graph(j.adj, vectors.len()),
        0 <= u < vectors.len() <= 0x1_0000_0000,
        marks_hold(j),
        j.marked[0],
    ensures
        ({
            let k = joined_node(metric, vectors, j, u);
            &&& is_graph(k.adj, vectors.len())
            &&& marks_hold(k)
            &&& k.marked[0]
            &&& k.marked[u]
            &&& forall|i: int|
                0 <= i < j.marked.len() && j.marked[i] ==> #[trigger] k.marked[i]
            &&& subgraph(j.adj, k.adj)
            &&& forall|i: int|
                0 <= i < j.adj.len() ==> (#[trigger] k.adj[i]).len() >= j.adj[i].len()
                    && k.adj[i].take(j.adj[i].len() as int) == j.adj[i]
            &&& no_loops(j.adj) ==> no_loops(k.adj)
        }),
{
    let n = vectors.len();
    let k = joined_node(metric, vectors, j, u);
    lemma_nearest_marked(metric, vectors, j.marked, u, n);
    if j.marked[u] {
        assert forall|i: int| 0 <= i < j.adj.len() implies (#[trigger] k.adj[i]).take(
            j.adj[i].len() as int,
        ) == j.adj[i] by {
            assert(j.adj[i].take(j.adj[i].len() as int) =~= j.adj[i]);
        }
    } else {
        match nearest_marked(metric, vectors, j.marked, u, n) {
            None => {},
            Some(b) => {
                let forth = j.adj.update(u, j.adj[u].push(b));
                assert(b != u);
                assert forall|i: int| 0 <= i < n implies listed_below(#[trigger] k.adj[i], n)
                    && k.adj[i].len() >= j.adj[i].len() && k.adj[i].take(j.adj[i].len() as int)
                    == j.adj[i] by {
                    assert(listed_below(j.adj[i], n));
                    assert(k.adj[i].take(j.adj[i].len() as int) =~= j.adj[i]);
                }
                assert forall|x: u32, y: u32| #[trigger] edge(j.adj, x, y) implies edge(
                    k.adj,
                    x,
                    y,
                ) by {
                    let list = j.adj[x as int];
                    let z = choose|z: int| 0 <= z < list.len() && list[z] == y;
                    assert(k.adj[x as int][z] == y);
                }
                assert(edge(k.adj, b, u as u32)) by {
                    let list = k.adj[b as int];
                    assert(list[list.len() - 1] == u as u32);
                }
                if no_loops(j.adj) {
                    assert forall|i: int| 0 <= i < k.adj.len() implies !(
                    #[trigger] k.adj[i]).contains(i as u32) by {
                        let list = j.adj[i];
                        assert(!list.contains(i as u32));
                        assert forall|x: int| 0 <= x < k.adj[i].len() implies k.adj[i][x]
                            != i as u32 by {
                            if x < list.len() {
                                assert(list.contains(list[x]));
                            }
                        }
                    }
                }
                assert(reachable(j.adj, 0, b));
                lemma_reach_subgraph(j.adj, k.adj, 0, b);
                lemma_reach_step(k.adj, 0, b, u as u32);
                assert forall|i: int| 0 <= i < n && #[trigger] k.marked[i] implies reachable(
                    k.adj,
                    0,
                    i as u32,
                ) by {
                    if i != u {
                        assert(j.marked[i]);
                        lemma_reach_subgraph(j.adj, k.adj, 0, i as u32);
                    }
                }
            },
        }
    }
}

proof fn lemma_joined_nodes<T, D: Distance<T>>(
    metric: D,
    vectors: Seq<Seq<T>>,
    j: Joining,
    n: nat,
)
    requires
        is_graph(j.adj, vectors.len()),
        0 < vectors.len() <= 0x1_0000_0000,
        n <= vectors.len(),
        marks_hold(j),
        j.marked[0],
    ensures
        ({
            let k = joined_nodes(metric, vectors, j, n);
            &&& is_graph(k.adj, vectors.len())
            &&& marks_hold(k)
            &&& k.marked[0]
            &&& forall|i: int| 0 <= i < n ==> #[trigger] k.marked[i]
            &&& forall|i: int|
                0 <= i < j.adj.len() ==> (#[trigger] k.adj[i]).len() >= j.adj[i].len()
                    && k.adj[i].take(j.adj[i].len() as int) == j.adj[i]
            &&& no_loops(j.adj) ==> no_loops(k.adj)
        }),
    decreases n,
{
    if n == 0 {
        assert forall|i: int| 0 <= i < j.adj.len() implies (#[trigger] j.adj[i]).take(
            j.adj[i].len() as int,
        ) == j.adj[i] by {
            assert(j.adj[i].take(j.adj[i].len() as int) =~= j.adj[i]);
        }
    } else {
        lemma_joined_nodes(metric, vectors, j, (n - 1) as nat);
        let h = joined_nodes(metric, vectors, j, (n - 1) as nat);
        lemma_joined_node(metric, vectors, h, n - 1);
        let k = joined_nodes(metric, vectors, j, n);
        assert forall|i: int| 0 <= i < n implies #[trigger] k.marked[i] by {
            if i < n - 1 {
                assert(h.marked[i]);
            }
        }
        assert forall|i: int| 0 <= i < j.adj.len() implies (#[trigger] k.adj[i]).len()
            >= j.adj[i].len() && k.adj[i].take(j.adj[i].len() as int) == j.adj[i] by {
            assert(h.adj[i].len() >= j.adj[i].len());
            assert(k.adj[i].take(h.adj[i].len() as int) == h.adj[i]);
            assert(k.adj[i].take(j.adj[i].len() as int) =~= h.adj[i].take(j.adj[i].len() as int));
        }
    }
}

/// A graph that was built is connected from node 0, its neighbours exist, no node
/// is its own neighbour, and each list begins with the nearest vectors that share a
/// training query with the node.
pub proof fn lemma_built_graph<T, D: Distance<T>>(
    metric: D,
    vectors: Seq<Seq<T>>,
    queries: Seq<Seq<T>>,
    k_train: nat,
    max_degree: nat,
)
    requires
        0 < vectors.len() <= 0x1_0000_0000,
    ensures
        ({
            let adj = built_graph(metric, vectors, queries, k_train, max_degree);
            let base = projected(
                metric,
                vectors,
                near_all(metric, queries, vectors, k_train),
                max_degree,
            );
            &&& is_graph(adj, vectors.len())
            &&& connected(adj)
            &&& no_loops(adj)
            &&& is_graph(base, vectors.len())
            &&& forall|i: int|
                0 <= i < base.len() ==> (#[trigger] adj[i]).len() >= base[i].len() && adj[i].take(
                    base[i].len() as int,
                ) == base[i]
        }),
{
    let lists = near_all(metric, queries, vectors, k_train);
    assert forall|i: int| 0 <= i < lists.len() implies listed_below(
        #[trigger] lists[i],
        vectors.len(),
    ) by {
        lemma_near(metric, queries[i], vectors, k_train);
    }
    lemma_projected(metric, vectors, lists, max_degree);
    let base = projected(metric, vectors, lists, max_degree);
    let start = Joining { adj: base, marked: reached_marks(base) };
    lemma_reach_self(base, 0);
    lemma_joined_nodes(metric, vectors, start, vectors.len());
    let k = joined_nodes(metric, vectors, start, vectors.len());
    assert forall|id: u32| id < k.adj.len() implies #[trigger] reachable(k.adj, 0, id) by {
        assert(k.marked[id as int]);
    }
}

/// Walks breadth-first from `start`. Returns the nodes that it leads to, each
/// once.
pub fn bfs_reachable(adj: &[Vec<u32>], start: u32) -> (r: Vec<u32>)
    requires
        is_graph(rows(adj@), adj@.len()),
        start < adj@.len(),
    ensures
        r@.no_duplicates(),
        forall|id: u32| r@.contains(id) <==> reachable(rows(adj@), start, id),
        listed_below(r@, adj@.len()),
{
    let n: usize = adj.len();
    let ghost graph = rows(adj@);
    let mut seen: Vec<bool> = Vec::new();
    let mut i: usize = 0;
    while i < n
        invariant
            i <= n,
            seen@.len() == i,
            forall|j: int| 0 <= j < i ==> !(#[trigger] seen@[j]),
        decreases n - i,
    {
        seen.push(false);
        i += 1;
    }
    let mut queue: Vec<u32> = Vec::new();
    seen.set(start as usize, true);
    queue.push(start);
    let mut head: usize = 0;
    proof {
        lemma_reach_self(graph, start);
        assert(queue@[0] == start);
        lemma_queue_short(queue@, n as nat);
    }
    while head < queue.len()
        invariant
            head <= queue@.len() <= n,
            n == adj@.len(),
            graph == rows(adj@),
            is_graph(graph, n as nat),
            seen@.len() == n,
            queue@.no_duplicates(),
            listed_below(queue@, n as nat),
            queue@.contains(start),
            forall|id: u32| id < n ==> (#[trigger] seen@[id as int] <==> queue@.contains(id)),
            forall|x: int|
                0 <= x < queue@.len() ==> reachable(graph, start, #[trigger] queue@[x]),
            forall|x: int, y: u32|
                0 <= x < head && #[trigger] edge(graph, queue@[x], y) ==> queue@.contains(y),
        decreases n - head,
    {
        let cur: u32 = queue[head];
        assert(queue@[head as int] < n);
        assert(graph[cur as int] == adj@[cur as int]@);
        let count: usize = adj[cur as usize].len();
        let ghost before = queue@;
        let mut j: usize = 0;
        while j < count
            invariant
                j <= count,
                cur < n,
                count == adj@[cur as int]@.len(),
                head < before.len() <= queue@.len() <= n,
                before[head as int] == cur,
                n == adj@.len(),
                graph == rows(adj@),
                is_graph(graph, n as nat),
                seen@.len() == n,
                queue@.no_duplicates(),
                listed_below(queue@, n as nat),
                queue@.contains(start),
                queue@.take(before.len() as int) == before,
                forall|id: u32| id < n ==> (#[trigger] seen@[id as int] <==> queue@.contains(id)),
                forall|x: int|
                    0 <= x < queue@.len() ==> reachable(graph, start, #[trigger] queue@[x]),
                forall|x: int, y: u32|
                    0 <= x < head && #[trigger] edge(graph, before[x], y) ==> before.contains(y),
                forall|x: int|
                    0 <= x < j ==> queue@.contains(#[trigger] adj@[cur as int]@[x]),
            decreases count - j,
        {
            let nb: u32 = adj[cur as usize][j];
            proof {
                assert(listed_below(graph[cur as int], n as nat));
                assert(graph[cur as int][j as int] < n);
            }
            let ghost was = queue@;
            if !seen[nb as usize] {
                seen.set(nb as usize, true);
                queue.push(nb);
                proof {
                    assert(!was.contains(nb));
                    assert(graph[cur as int].contains(nb));
                    assert(edge(graph, cur, nb));
                    assert(was[head as int] == before[head as int]) by {
                        assert(was.take(before.len() as int)[head as int] == before[head as int]);
                    }
                    lemma_reach_step(graph, start, cur, nb);
                    assert forall|id: u32| id < n implies (#[trigger] seen@[id as int]
                        <==> queue@.contains(id)) by {
                        if was.contains(id) {
                            let z = choose|z: int| 0 <= z < was.len() && was[z] == id;
                            assert(queue@[z] == id);
                        }
                        if id == nb {
                            assert(queue@[queue@.len() - 1] == nb);
                        }
                        if queue@.contains(id) && id != nb {
                            let z = choose|z: int| 0 <= z < queue@.len() && queue@[z] == id;
                            assert(was[z] == id);
                        }
                    }
                    assert(queue@.take(before.len() as int) =~= before);
                    lemma_queue_short(queue@, n as nat);
                }
            }
            proof {
                assert(queue@.contains(nb)) by {
                    if was.contains(nb) && was == queue@ {
                    } else {
                        assert(queue@[queue@.len() - 1] == nb);
                    }
                }
                assert forall|x: int| 0 <= x < j + 1 implies queue@.contains(
                    #[trigger] adj@[cur as int]@[x],
                ) by {
                    if x < j {
                        let y = adj@[cur as int]@[x];
                        assert(was.contains(y));
                        let z = choose|z: int| 0 <= z < was.len() && was[z] == y;
                        assert(queue@[z] == y);
                    }
                }
                assert(queue@.contains(start)) by {
                    let z = choose|z: int| 0 <= z < was.len() && was[z] == start;
                    assert(queue@[z] == start);
                }
            }
            j += 1;
        }
        proof {
            assert forall|x: int, y: u32|
                0 <= x < head + 1 && #[trigger] edge(graph, queue@[x], y) implies queue@.contains(
                y,
            ) by {
                assert(queue@[x] == before[x]) by {
                    assert(queue@.take(before.len() as int)[x] == before[x]);
                }
                if x < head {
                    assert(edge(graph, before[x], y));
                    assert(before.contains(y));
                    let z = choose|z: int| 0 <= z < before.len() && before[z] == y;
                    assert(queue@.take(before.len() as int)[z] == y);
                    assert(queue@[z] == y);
                } else {
                    let list = graph[cur as int];
                    let z = choose|z: int| 0 <= z < list.len() && list[z] == y;
                    assert(queue@.contains(adj@[cur as int]@[z]));
                }
            }
        }
        head += 1;
    }
    proof {
        assert forall|id: u32| queue@.contains(id) <==> reachable(graph, start, id) by {
            if queue@.contains(id) {
                let x = choose|x: int| 0 <= x < queue@.len() && queue@[x] == id;
                assert(reachable(graph, start, queue@[x]));
            }
            if reachable(graph, start, id) {
                let s = Set::new(|x: u32| queue@.contains(x));
                assert forall|x: u32, y: u32| s.contains(x) && #[trigger] edge(
                    graph,
                    x,
                    y,
                ) implies s.contains(y) by {
                    let z = choose|z: int| 0 <= z < queue@.len() && queue@[z] == x;
                    assert(edge(graph, queue@[z], y));
                }
                lemma_reach_closed(graph, s, start, id);
            }
        }
    }
    queue
}

/// A list of different nodes is no longer than there are nodes.
proof fn lemma_queue_short(list: Seq<u32>, n: nat)
    requires
        list.no_duplicates(),
        listed_below(list, n),
    ensures
        list.len() <= n,
{
    list.unique_seq_to_set();
    assert forall|x: u32| list.to_set().contains(x) implies x < n by {
        let y = choose|y: int| 0 <= y < list.len() && list[y] == x;
        assert(list[y] < n);
    }
    lemma_below_len(list.to_set(), n);
}

/// Finds the `k` vectors nearest to a query.
pub(crate) fn find_near<T, D: Distance<T>>(
    metric: &D,
    query: &[T],
    vectors: &Vec<Vec<T>>,
    k: usize,
) -> (r: Vec<u32>)
    requires
        vectors@.len() <= 0x1_0000_0000,
    ensures
        r@ == near(*metric, query@, rows(vectors@), k as nat),
{
    let n: usize = vectors.len();
    let ghost all = distances(*metric, query@, rows(vectors@));
    let mut pairs: Vec<(u64, u32)> = Vec::new();
    let mut i: usize = 0;
    while i < n
        invariant
            i <= n,
            n == vectors@.len(),
            n <= 0x1_0000_0000,
            all == distances(*metric, query@, rows(vectors@)),
            pairs@ =~= all.take(i as int),
        decreases n - i,
    {
        pairs.push((metric.key(query, vectors[i].as_slice()), i as u32));
        i += 1;
    }
    assert(all.take(n as int) =~= all);
    let top = select_top_k(pairs.as_slice(), k);
    take_payloads(top.as_slice())
}

/// Appends the numbers of a list other than `v`.
fn append_others(out: &mut Vec<u32>, list: &[u32], v: u32)
    ensures
        final(out)@ == old(out)@ + others(list@, v),
{
    let n: usize = list.len();
    let mut i: usize = 0;
    assert(list@.take(0) =~= Seq::empty());
    assert(out@ =~= old(out)@ + others(list@.take(0), v));
    while i < n
        invariant
            i <= n,
            n == list@.len(),
            out@ == old(out)@ + others(list@.take(i as int), v),
        decreases n - i,
    {
        proof {
            assert(list@.take(i + 1).drop_last() =~= list@.take(i as int));
        }
        if list[i] != v {
            out.push(list[i]);
        }
        assert(out@ =~= old(out)@ + others(list@.take(i + 1), v));
        i += 1;
    }
    assert(list@.take(n as int) =~= list@);
}

/// Joins every node that is not marked to the nearest marked one.
fn connectivity_pass<T, D: Distance<T>>(
    adj: &mut Vec<Vec<u32>>,
    marked: &mut Vec<bool>,
    metric: &D,
    vectors: &Vec<Vec<T>>,
)
    requires
        old(adj)@.len() == vectors@.len(),
        old(marked)@.len() == vectors@.len(),
        vectors@.len() <= 0x1_0000_0000,
    ensures
        (Joining { adj: rows(final(adj)@), marked: final(marked)@ }) == joined_nodes(
            *metric,
            rows(vectors@),
            Joining { adj: rows(old(adj)@), marked: old(marked)@ },
            vectors@.len(),
        ),
{
    let n: usize = vectors.len();
    let ghost vecs = rows(vectors@);
    let ghost start = Joining { adj: rows(adj@), marked: marked@ };
    let mut u: usize = 0;
    while u < n
        invariant
            u <= n,
            n == vectors@.len(),
            n <= 0x1_0000_0000,
            vecs == rows(vectors@),
            adj@.len() == n,
            marked@.len() == n,
            (Joining { adj: rows(adj@), marked: marked@ }) == joined_nodes(
                *metric,
                vecs,
                start,
                u as nat,
            ),
        decreases n - u,
    {
        if !marked[u] {
            let mut best: Option<u32> = None;
            let mut best_d: u64 = 0;
            let mut r: usize = 0;
            while r < n
                invariant
                    r <= n,
                    u < n,
                    n == vectors@.len(),
                    n <= 0x1_0000_0000,
                    vecs == rows(vectors@),
                    marked@.len() == n,
                    best == nearest_marked(*metric, vecs, marked@, u as int, r as nat),
                    match best {
                        None => true,
                        Some(b) => best_d == metric.spec_key(vecs[u as int], vecs[b as int]),
                    },
                decreases n - r,
            {
                if marked[r] {
                    let d: u64 = metric.key(vectors[u].as_slice(), vectors[r].as_slice());
                    assert(vecs[u as int] == vectors@[u as int]@);
                    assert(vecs[r as int] == vectors@[r as int]@);
                    let nearer: bool = match best {
                        None => true,
                        Some(_) => d < best_d,
                    };
                    if nearer {
                        best = Some(r as u32);
                        best_d = d;
                    }
                }
                r += 1;
            }
            proof {
                lemma_nearest_marked(*metric, vecs, marked@, u as int, n as nat);
            }
            match best {
                None => {},
                Some(b) => {
                    let ghost before = rows(adj@);
                    adj[u].push(b);
                    let ghost forth = rows(adj@);
                    assert(forth =~= before.update(u as int, before[u as int].push(b)));
                    adj[b as usize].push(u as u32);
                    assert(rows(adj@) =~= forth.update(
                        b as int,
                        forth[b as int].push(u as u32),
                    ));
                    marked.set(u, true);
                },
            }
        }
        u += 1;
    }
}

/// Builds the lists of a graph from training queries.
fn build_adjacency<T, D: Distance<T>>(
    dist: &D,
    vectors: &Vec<Vec<T>>,
    training_queries: &[Vec<T>],
    params: &BuildParams,
) -> (r: Vec<Vec<u32>>)
    requires
        0 < vectors@.len() <= 0x1_0000_0000,
    ensures
        rows(r@) == built_graph(
            *dist,
            rows(vectors@),
            rows(training_queries@),
            params.k_train as nat,
            params.max_degree as nat,
        ),
{
    let n: usize = vectors.len();
    let ghost vecs = rows(vectors@);
    let ghost metric = *dist;
    let ghost queries = rows(training_queries@);
    let ghost lists = near_all(metric, queries, vecs, params.k_train as nat);
    let total: usize = training_queries.len();
    let mut shared: Vec<Vec<u32>> = empty_rows(n);
    let mut t: usize = 0;
    proof {
        assert(shared@.len() == rows(shared@).len());
        assert forall|v: int| 0 <= v < n implies (#[trigger] shared@[v])@ == company(
            lists,
            v as u32,
            0,
        ) by {
            assert(rows(shared@)[v] == Seq::<u32>::empty());
        }
    }
    while t < total
        invariant
            t <= total,
            total == training_queries@.len(),
            n == vectors@.len(),
            n <= 0x1_0000_0000,
            vecs == rows(vectors@),
            metric == *dist,
            queries == rows(training_queries@),
            lists == near_all(metric, queries, vecs, params.k_train as nat),
            shared@.len() == n,
            forall|v: int|
                0 <= v < n ==> (#[trigger] shared@[v])@ == company(lists, v as u32, t as nat),
        decreases total - t,
    {
        let list = find_near(
            dist,
            training_queries[t].as_slice(),
            vectors,
            params.k_train,
        );
        assert(list@ == lists[t as int]);
        proof {
            lemma_near(metric, queries[t as int], vecs, params.k_train as nat);
        }
        let count: usize = list.len();
        let mut i: usize = 0;
        while i < count
            invariant
                i <= count,
                count == list@.len(),
                n <= 0x1_0000_0000,
                list@ == lists[t as int],
                list@.no_duplicates(),
                listed_below(list@, n as nat),
                shared@.len() == n,
                forall|v: int|
                    0 <= v < n ==> (#[trigger] shared@[v])@ == if list@.take(i as int).contains(
                        v as u32,
                    ) {
                        company(lists, v as u32, t as nat + 1)
                    } else {
                        company(lists, v as u32, t as nat)
                    },
            decreases count - i,
        {
            let v: u32 = list[i];
            assert(list@[i as int] < n);
            let ghost before = shared@;
            proof {
                assert(list@.contains(v));
                assert(!list@.take(i as int).contains(v)) by {
                    let shorter = list@.take(i as int);
                    if shorter.contains(v) {
                        let z = choose|z: int| 0 <= z < shorter.len() && shorter[z] == v;
                        assert(list@[z] == list@[i as int]);
                    }
                }
            }
            append_others(&mut shared[v as usize], list.as_slice(), v);
            proof {
                assert forall|x: int| 0 <= x < n implies (#[trigger] shared@[x])@ == if list@.take(
                    i + 1,
                ).contains(x as u32) {
                    company(lists, x as u32, t as nat + 1)
                } else {
                    company(lists, x as u32, t as nat)
                } by {
                    if x == v {
                        assert(list@.take(i + 1)[i as int] == v);
                        assert(list@.take(i + 1).contains(v));
                    } else {
                        assert(shared@[x] == before[x]);
                        let shorter = list@.take(i as int);
                        let longer = list@.take(i + 1);
                        if longer.contains(x as u32) {
                            let z = choose|z: int| 0 <= z < longer.len() && longer[z] == x as u32;
                            assert(shorter[z] == x as u32);
                        }
                        if shorter.contains(x as u32) {
                            let z = choose|z: int|
                                0 <= z < shorter.len() && shorter[z] == x as u32;
                            assert(longer[z] == x as u32);
                        }
                    }
                }
            }
            i += 1;
        }
        assert(list@.take(count as int) =~= list@);
        t += 1;
    }
    proof {
        assert forall|i: int| 0 <= i < lists.len() implies listed_below(
            #[trigger] lists[i],
            n as nat,
        ) by {
            lemma_near(metric, queries[i], vecs, params.k_train as nat);
        }
        lemma_projected(metric, vecs, lists, params.max_degree as nat);
        lemma_built_graph(
            metric,
            vecs,
            queries,
            params.k_train as nat,
            params.max_degree as nat,
        );
    }
    let ghost base = projected(metric, vecs, lists, params.max_degree as nat);
    let mut adj: Vec<Vec<u32>> = Vec::new();
    let none: [u32; 0] = [];
    assert(none@ =~= Seq::empty());
    let mut v: usize = 0;
    while v < n
        invariant
            v <= n,
            n == vectors@.len(),
            n <= 0x1_0000_0000,
            vecs == rows(vectors@),
            metric == *dist,
            none@ == Seq::<u32>::empty(),
            shared@.len() == n,
            forall|v: int|
                0 <= v < n ==> (#[trigger] shared@[v])@ == company(lists, v as u32, lists.len()),
            forall|i: int| 0 <= i < lists.len() ==> listed_below(#[trigger] lists[i], n as nat),
            base == projected(metric, vecs, lists, params.max_degree as nat),
            rows(adj@) =~= base.take(v as int),
        decreases n - v,
    {
        let members = sort_dedup(shared[v].as_slice());
        let space = Excluding {
            metric: dist,
            q: vectors[v].as_slice(),
            vectors,
            excluded: &none,
        };
        assert(vecs[v as int] == vectors@[v as int]@);
        proof {
            lemma_sorted_set(company(lists, v as u32, lists.len()));
            assert forall|x: int| 0 <= x < members@.len() implies (#[trigger] members@[x]) < n by {
                let u = members@[x];
                assert(members@.contains(u));
                lemma_company(lists, v as u32, u, lists.len());
                let i = choose|i: int|
                    0 <= i < lists.len() && (#[trigger] lists[i]).contains(v as u32)
                        && lists[i].contains(u);
                let y = choose|y: int| 0 <= y < lists[i].len() && lists[i][y] == u;
                assert(lists[i][y] < n);
            }
        }
        let nearest_ones = select_nearest(&space, members.as_slice(), params.max_degree);
        let ghost done = rows(adj@);
        assert(nearest_ones@ == base[v as int]);
        adj.push(nearest_ones);
        assert(rows(adj@) =~= done.push(nearest_ones@));
        v += 1;
    }
    assert(base.take(n as int) =~= base);
    assert(adj@.len() == rows(adj@).len());
    let reached = bfs_reachable(adj.as_slice(), 0);
    let mut marked: Vec<bool> = Vec::new();
    let mut m: usize = 0;
    while m < n
        invariant
            m <= n,
            marked@.len() == m,
            forall|id: int| 0 <= id < m ==> !(#[trigger] marked@[id]),
        decreases n - m,
    {
        marked.push(false);
        m += 1;
    }
    let many: usize = reached.len();
    let mut x: usize = 0;
    while x < many
        invariant
            x <= many,
            many == reached@.len(),
            listed_below(reached@, n as nat),
            marked@.len() == n,
            forall|id: int|
                0 <= id < n ==> (#[trigger] marked@[id] <==> exists|y: int|
                    0 <= y < x && #[trigger] reached@[y] == id),
        decreases many - x,
    {
        let ghost before = marked@;
        let at: u32 = reached[x];
        assert(reached@[x as int] < n);
        marked.set(at as usize, true);
        proof {
            assert forall|id: int| 0 <= id < n implies (#[trigger] marked@[id] <==> exists|y: int|
                0 <= y < x + 1 && #[trigger] reached@[y] == id) by {
                if id == at {
                    assert(reached@[x as int] == id);
                } else {
                    assert(marked@[id] == before[id]);
                }
            }
        }
        x += 1;
    }
    proof {
        assert forall|id: int| 0 <= id < n implies marked@[id] == reached_marks(base)[id] by {
            if marked@[id] {
                let y = choose|y: int| 0 <= y < many && #[trigger] reached@[y] == id;
                assert(reached@.contains(id as u32));
            }
            if reachable(base, 0, id as u32) {
                assert(reached@.contains(id as u32));
                let y = choose|y: int| 0 <= y < reached@.len() && reached@[y] == id as u32;
                assert(reached@[y] == id);
            }
        }
        assert(marked@ =~= reached_marks(base));
    }
    connectivity_pass(&mut adj, &mut marked, dist, vectors);
    adj
}

/// Builds the graph of an index from training queries.
pub fn build_roargraph<T: Scalar, D: Distance<T>>(
    graph: &mut RoarGraph<T, D>,
    training_queries: &[Vec<T>],
    params: &BuildParams,
) -> (r: Result<(), RoarError>)
    requires
        old(graph).wf(),
    ensures
        r == if old(graph).points().len() == 0 {
            Err::<(), RoarError>(RoarError::EmptyIndex)
        } else if training_queries@.len() == 0 {
            Err(RoarError::NoTrainingQueries)
        } else {
            Ok(())
        },
        r is Err ==> *final(graph) == *old(graph),
        final(graph).points() == old(graph).points(),
        final(graph).width() == old(graph).width(),
        final(graph).distance() == old(graph).distance(),
        r is Ok ==> {
            &&& final(graph).is_built()
            &&& final(graph).wf()
            &&& final(graph).edges() == built_graph(
                old(graph).distance(),
                old(graph).points(),
                rows(training_queries@),
                params.k_train as nat,
                params.max_degree as nat,
            )
            &&& connected(final(graph).edges())
        },
{
    if graph.len() == 0 {
        return Err(RoarError::EmptyIndex);
    }
    if training_queries.len() == 0 {
        return Err(RoarError::NoTrainingQueries);
    }
    let (vectors, metric) = graph.stored();
    let adj = build_adjacency(metric, vectors, training_queries, params);
    proof {
        lemma_built_graph(
            graph.distance(),
            graph.points(),
            rows(training_queries@),
            params.k_train as nat,
            params.max_degree as nat,
        );
    }
    graph.set_edges(adj);
    Ok(())
}

} // verus!
