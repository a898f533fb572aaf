//! The symmetric graph of nearest neighbours.

use vstd::prelude::*;

use crate::beam::{is_graph, listed_below, Nodes, Space};
use crate::bytes::{cells, count_cells};
use crate::idlist::{lemma_sorted_set, sort_dedup, strictly_ascending};
use crate::reach::edge;
use crate::scalar::Scalar;
use crate::serf::data::{sq_l2, sq_l2_of, Point};
use crate::sorting::select_top_k;
use crate::spaces::{lemma_nearest, nearest, payloads, select_nearest, take_payloads};
use crate::table::{copy_row, empty_rows, rows};

verus! {

/// The points by their distance from `centre`, apart from point `own`.
pub open spec fn around<R: Scalar>(points: Seq<Point<R>>, centre: Seq<R>, own: int) -> Nodes {
    Nodes {
        count: points.len(),
        ranks: |j: u32| sq_l2_of(centre, points[j as int].vec@).key_of(),
        allowed: |j: u32| j != own,
    }
}

/// The points as point `i` sees them.
pub open spec fn outward<R: Scalar>(points: Seq<Point<R>>, i: int) -> Nodes {
    around(points, points[i].vec@, i)
}

/// Computes what `around` states.
pub struct Around<'a, R> {
    pub points: &'a [Point<R>],
    pub centre: &'a [R],
    pub own: usize,
}

impl<'a, R: Scalar> Space for Around<'a, R> {
    open spec fn nodes(&self) -> Nodes {
        around(self.points@, self.centre@, self.own as int)
    }

    fn rank(&self, id: u32) -> (r: u64) {
        sq_l2(self.centre, self.points[id as usize].vec.as_slice()).key()
    }

    fn allow(&self, id: u32) -> (b: bool) {
        id as usize != self.own
    }
}

/// The numbers below `n` other than `i`.
pub open spec fn others(n: nat, i: int) -> Seq<u32> {
    Seq::new(
        if i < n {
            (n - 1) as nat
        } else {
            n
        },
        |j: int|
            if j < i {
                j as u32
            } else {
                (j + 1) as u32
            },
    )
}

/// The `k` points nearest to point `i`, the nearest first.
pub open spec fn knn_row<R: Scalar>(points: Seq<Point<R>>, i: int, k: nat) -> Seq<u32> {
    nearest(outward(points, i), others(points.len(), i), k)
}

/// The `k` nearest points of every point.
pub open spec fn knn_rows<R: Scalar>(points: Seq<Point<R>>, k: nat) -> Seq<Seq<u32>> {
    Seq::new(points.len(), |i: int| knn_row(points, i, k))
}

/// The lists of `out` are ascending, and hold the edges of `raw` in both
/// directions.
pub open spec fn symmetrized(raw: Seq<Seq<u32>>, out: Seq<Seq<u32>>) -> bool {
    &&& out.len() == raw.len()
    &&& forall|u: int| 0 <= u < out.len() ==> strictly_ascending(#[trigger] out[u])
    &&& forall|u: u32, v: u32|
        u < out.len() ==> (#[trigger] edge(out, u, v) <==> edge(raw, u, v) || edge(raw, v, u))
}

/// Two graphs with the same edges are the same where their lists ascend: the
/// edges of a graph and their directions determine its symmetric graph.
pub proof fn lemma_symmetrized_unique(raw: Seq<Seq<u32>>, a: Seq<Seq<u32>>, b: Seq<Seq<u32>>)
    requires
        symmetrized(raw, a),
        symmetrized(raw, b),
        raw.len() <= 0x1_0000_0000,
    ensures
        a == b,
{
    assert forall|u: int| 0 <= u < a.len() implies a[u] == b[u] by {
        let x = a[u];
        let y = b[u];
        assert(strictly_ascending(x) && strictly_ascending(y));
        assert forall|v: u32| x.contains(v) <==> y.contains(v) by {
            assert(edge(a, u as u32, v) <==> edge(b, u as u32, v));
        }
        lemma_same_set(x, y);
    }
    assert(a =~= b);
}

proof fn lemma_same_set(x: Seq<u32>, y: Seq<u32>)
    requires
        strictly_ascending(x),
        strictly_ascending(y),
        forall|v: u32| x.contains(v) <==> y.contains(v),
    ensures
        x == y,
    decreases x.len(),
{
    if x.len() == 0 {
        if y.len() > 0 {
            assert(y.contains(y[0]));
        }
        assert(x =~= y);
    } else {
        assert(x.contains(x.last()));
        let j = choose|j: int| 0 <= j < y.len() && y[j] == x.last();
        assert(y.contains(y.last()));
        let i = choose|i: int| 0 <= i < x.len() && x[i] == y.last();
        assert(x.last() == y.last()) by {
            if j < y.len() - 1 {
                assert(y[j] < y[y.len() - 1]);
            }
            if i < x.len() - 1 {
                assert(x[i] < x[x.len() - 1]);
            }
        }
        let s = x.drop_last();
        let t = y.drop_last();
        assert forall|v: u32| s.contains(v) <==> t.contains(v) by {
            if s.contains(v) {
                let a = choose|a: int| 0 <= a < s.len() && s[a] == v;
                assert(x[a] == v && x[a] < x[x.len() - 1]);
                assert(x.contains(v));
                let b = choose|b: int| 0 <= b < y.len() && y[b] == v;
                assert(t[b] == v);
            }
            if t.contains(v) {
                let b = choose|b: int| 0 <= b < t.len() && t[b] == v;
                assert(y[b] == v && y[b] < y[y.len() - 1]);
                assert(y.contains(v));
                let a = choose|a: int| 0 <= a < x.len() && x[a] == v;
                assert(s[a] == v);
            }
        }
        lemma_same_set(s, t);
        assert(x =~= s.push(x.last()));
        assert(y =~= t.push(y.last()));
    }
}

/// Adjacency lists: list `i` holds the neighbours of node `i` in ascending order.
#[derive(Debug, Clone)]
pub struct Graph {
    pub neighbors: Vec<Vec<u32>>,
}

/// Selects the `k` points nearest to point `i`.
pub fn nearest_points<R: Scalar>(points: &[Point<R>], i: usize, k: usize) -> (r: Vec<u32>)
    requires
        i < points@.len() <= 0x1_0000_0000,
    ensures
        r@ == knn_row(points@, i as int, k as nat),
        listed_below(r@, points@.len()),
{
    let n: usize = points.len();
    let ghost want = others(n as nat, i as int);
    let mut list: Vec<u32> = Vec::new();
    let mut j: usize = 0;
    while j < n
        invariant
            j <= n,
            i < n,
            n <= 0x1_0000_0000,
            want == others(n as nat, i as int),
            list@ =~= want.take(
                if j <= i {
                    j as int
                } else {
                    j - 1
                },
            ),
        decreases n - j,
    {
        if j != i {
            list.push(j as u32);
        }
        j += 1;
    }
    assert(want.take(n - 1) =~= want);
    let space = Around { points, centre: points[i].vec.as_slice(), own: i };
    let ghost nodes = space.nodes();
    assert(listed_below(list@, n as nat));
    let r = select_nearest(&space, list.as_slice(), k);
    proof {
        lemma_nearest(nodes, list@, k as nat);
        assert forall|x: int| 0 <= x < r@.len() implies (#[trigger] r@[x]) < n by {
            assert(list@.contains(r@[x]));
            let y = choose|y: int| 0 <= y < list@.len() && list@[y] == r@[x];
            assert(list@[y] < n);
        }
    }
    r
}

impl Graph {
    /// The graph of the `k` nearest neighbours, with every edge in both
    /// directions.
    pub fn build_knn<R: Scalar>(points: &[Point<R>], k: usize) -> (g: Self)
        requires
            points@.len() <= 0x1_0000_0000,
        ensures
            symmetrized(knn_rows(points@, k as nat), rows(g.neighbors@)),
            is_graph(rows(g.neighbors@), points@.len()),
    {
        let n: usize = points.len();
        let mut raw: Vec<Vec<u32>> = Vec::new();
        let mut i: usize = 0;
        while i < n
            invariant
                i <= n,
                n == points@.len(),
                n <= 0x1_0000_0000,
                raw@.len() == i,
                forall|j: int|
                    0 <= j < i ==> (#[trigger] raw@[j])@ == knn_row(points@, j, k as nat)
                        && listed_below(raw@[j]@, n as nat),
            decreases n - i,
        {
            raw.push(nearest_points(points, i, k));
            i += 1;
        }
        assert(rows(raw@) =~= knn_rows(points@, k as nat));
        Graph::from_rows(raw)
    }

    /// The graph with the edges of `raw` in both directions.
    pub fn from_rows(raw: Vec<Vec<u32>>) -> (g: Self)
        requires
            is_graph(rows(raw@), raw@.len()),
            raw@.len() <= 0x1_0000_0000,
        ensures
            symmetrized(rows(raw@), rows(g.neighbors@)),
            is_graph(rows(g.neighbors@), raw@.len()),
    {
        let n: usize = raw.len();
        let back = collect_back(&raw);
        let ghost edges = rows(raw@);
        let mut neighbors: Vec<Vec<u32>> = Vec::new();
        let mut u: usize = 0;
        while u < n
            invariant
                u <= n,
                n == raw@.len(),
                n <= 0x1_0000_0000,
                edges == rows(raw@),
                is_graph(edges, n as nat),
                back@.len() == n,
                forall|v: u32, x: u32|
                    v < n ==> (#[trigger] back@[v as int]@.contains(x) <==> edge(edges, x, v)),
                neighbors@.len() == u,
                forall|v: int|
                    0 <= v < u ==> strictly_ascending(#[trigger] neighbors@[v]@) && listed_below(
                        neighbors@[v]@,
                        n as nat,
                    ),
                forall|v: u32, x: u32|
                    v < u ==> (#[trigger] neighbors@[v as int]@.contains(x) <==> edge(edges, v, x)
                        || edge(edges, x, v)),
            decreases n - u,
        {
            let mut list = copy_row(raw[u].as_slice());
            let extra = copy_row(back[u].as_slice());
            let ghost near = list@;
            let mut more = extra;
            list.append(&mut more);
            let ghost both = list@;
            let row = sort_dedup(list.as_slice());
            proof {
                assert(both =~= near + back@[u as int]@);
                assert(edges[u as int] == near);
                lemma_sorted_set(both);
                assert forall|x: u32| #[trigger] row@.contains(x) <==> edge(edges, u as u32, x)
                    || edge(edges, x, u as u32) by {
                    assert(row@.contains(x) <==> both.contains(x));
                    if both.contains(x) {
                        let i = choose|i: int| 0 <= i < both.len() && both[i] == x;
                        if i < near.len() {
                            assert(near[i] == x);
                        } else {
                            assert(back@[u as int]@[i - near.len()] == x);
                            assert(back@[u as u32 as int]@.contains(x));
                        }
                    }
                    if near.contains(x) {
                        let i = choose|i: int| 0 <= i < near.len() && near[i] == x;
                        assert(both[i] == x);
                    }
                    if back@[u as u32 as int]@.contains(x) {
                        let b = back@[u as int]@;
                        let i = choose|i: int| 0 <= i < b.len() && b[i] == x;
                        assert(both[near.len() + i] == x);
                    }
                }
                assert(listed_below(row@, n as nat)) by {
                    assert forall|i: int| 0 <= i < row@.len() implies (#[trigger] row@[i]) < n by {
                        let x = row@[i];
                        assert(row@.contains(x));
                        if edge(edges, u as u32, x) {
                            assert(listed_below(edges[u as int], n as nat));
                            let j = choose|j: int| 0 <= j < near.len() && near[j] == x;
                            assert(near[j] < n);
                        }
                    }
                }
            }
            neighbors.push(row);
            u += 1;
        }
        proof {
            let out = rows(neighbors@);
            assert forall|u: u32, v: u32| u < out.len() implies (#[trigger] edge(out, u, v) <==> edge(
                edges,
                u,
                v,
            ) || edge(edges, v, u)) by {
                assert(out[u as int] == neighbors@[u as int]@);
            }
        }
        Graph { neighbors }
    }

    /// The bytes of the lists: four for each neighbour, and the header of each
    /// list on a machine with eight-byte words.
    pub fn estimated_bytes(&self) -> (r: usize)
        requires
            self.neighbors@.len() * 24 + cells(rows(self.neighbors@)) * 4 <= usize::MAX,
        ensures
            r == self.neighbors@.len() * 24 + cells(rows(self.neighbors@)) * 4,
    {
        let edges: usize = count_cells(self.neighbors.as_slice());
        self.neighbors.len() * 24 + edges * 4
    }

    /// The number of edges, with both directions counted once.
    pub fn num_edges(&self) -> (r: usize)
        requires
            cells(rows(self.neighbors@)) <= usize::MAX,
        ensures
            r == cells(rows(self.neighbors@)) / 2,
    {
        count_cells(self.neighbors.as_slice()) / 2
    }
}

/// The edges that lead to each node, from where they start.
fn collect_back(raw: &Vec<Vec<u32>>) -> (back: Vec<Vec<u32>>)
    requires
        is_graph(rows(raw@), raw@.len()),
        raw@.len() <= 0x1_0000_0000,
    ensures
        back@.len() == raw@.len(),
        forall|v: u32, x: u32|
            v < back@.len() ==> (#[trigger] back@[v as int]@.contains(x) <==> edge(
                rows(raw@),
                x,
                v,
            )),
{
    let n: usize = raw.len();
    let ghost edges = rows(raw@);
    let mut back: Vec<Vec<u32>> = empty_rows(n);
    assert(rows(back@).len() == n);
    assert forall|v: int| 0 <= v < n implies (#[trigger] back@[v])@.len() == 0 by {
        assert(rows(back@)[v] == back@[v]@);
    }
    let mut u: usize = 0;
    while u < n
        invariant
            u <= n,
            n == raw@.len(),
            n <= 0x1_0000_0000,
            edges == rows(raw@),
            is_graph(edges, n as nat),
            back@.len() == n,
            forall|v: u32, x: u32|
                v < n ==> (#[trigger] back@[v as int]@.contains(x) <==> x < u && edge(edges, x, v)),
        decreases n - u,
    {
        let m: usize = raw[u].len();
        let ghost list = edges[u as int];
        let mut j: usize = 0;
        while j < m
            invariant
                j <= m,
                u < n,
                n == raw@.len(),
                n <= 0x1_0000_0000,
                m == raw@[u as int]@.len(),
                edges == rows(raw@),
                list == raw@[u as int]@,
                listed_below(list, n as nat),
                back@.len() == n,
                forall|v: u32, x: u32|
                    v < n ==> (#[trigger] back@[v as int]@.contains(x) <==> (x < u && edge(
                        edges,
                        x,
                        v,
                    )) || (x == u && list.take(j as int).contains(v))),
            decreases m - j,
        {
            let w: u32 = raw[u][j];
            let ghost before = back@;
            assert(list[j as int] < n);
            back[w as usize].push(u as u32);
            proof {
                let now = list.take(j + 1);
                assert(now =~= list.take(j as int).push(w));
                assert forall|v: u32, x: u32| v < n implies (#[trigger] back@[v as int]@.contains(x)
                    <==> (x < u && edge(edges, x, v)) || (x == u && now.contains(v))) by {
                    let old_list = before[v as int]@;
                    let new_list = back@[v as int]@;
                    assert(old_list.contains(x) <==> (x < u && edge(edges, x, v)) || (x == u
                        && list.take(j as int).contains(v)));
                    if v == w {
                        assert(new_list == old_list.push(u as u32));
                        assert(new_list[old_list.len() as int] == u as u32);
                        assert(now[j as int] == w);
                        if old_list.contains(x) {
                            let i = choose|i: int| 0 <= i < old_list.len() && old_list[i] == x;
                            assert(new_list[i] == x);
                        }
                        if new_list.contains(x) && x != u {
                            let i = choose|i: int| 0 <= i < new_list.len() && new_list[i] == x;
                            assert(old_list[i] == x);
                        }
                    } else {
                        assert(new_list == old_list);
                        if now.contains(v) {
                            let i = choose|i: int| 0 <= i < now.len() && now[i] == v;
                            assert(list.take(j as int)[i] == v);
                        }
                        if list.take(j as int).contains(v) {
                            let i = choose|i: int| 0 <= i < j && list.take(j as int)[i] == v;
                            assert(now[i] == v);
                        }
                    }
                }
            }
            j += 1;
        }
        assert(list.take(m as int) =~= list);
        u += 1;
    }
    back
}

/// Every edge leads both ways, no node is its own neighbour, and the neighbours
/// of a node include the `k` nearest points.
pub proof fn lemma_knn_graph<R: Scalar>(
    points: Seq<Point<R>>,
    k: nat,
    out: Seq<Seq<u32>>,
    u: u32,
    v: u32,
)
    requires
        points.len() <= 0x1_0000_0000,
        symmetrized(knn_rows(points, k), out),
        u < points.len(),
    ensures
        edge(out, u, v) ==> v < points.len() && edge(out, v, u) && u != v,
        knn_row(points, u as int, k).contains(v) ==> edge(out, u, v),
{
    let raw = knn_rows(points, k);
    lemma_knn_row(points, u as int, k);
    assert(raw[u as int] == knn_row(points, u as int, k));
    if edge(raw, u, v) {
        let list = raw[u as int];
        let i = choose|i: int| 0 <= i < list.len() && list[i] == v;
        assert(list[i] < points.len() && list[i] != u);
    }
    if edge(raw, v, u) {
        lemma_knn_row(points, v as int, k);
        assert(raw[v as int] == knn_row(points, v as int, k));
        let list = raw[v as int];
        let i = choose|i: int| 0 <= i < list.len() && list[i] == u;
        assert(list[i] != v);
    }
    if edge(out, u, v) {
        assert(edge(out, v, u) <==> edge(raw, v, u) || edge(raw, u, v));
    }
}

/// The nearest points are other points, each once, and `k` of them or all.
pub proof fn lemma_knn_row<R: Scalar>(points: Seq<Point<R>>, i: int, k: nat)
    requires
        0 <= i < points.len() <= 0x1_0000_0000,
    ensures
        forall|j: int|
            0 <= j < knn_row(points, i, k).len() ==> (#[trigger] knn_row(points, i, k)[j])
                < points.len() && knn_row(points, i, k)[j] != i,
        knn_row(points, i, k).no_duplicates(),
        knn_row(points, i, k).len() == if k < points.len() {
            k as int
        } else {
            points.len() - 1
        },
{
    let list = others(points.len(), i);
    lemma_nearest(outward(points, i), list, k);
    let row = knn_row(points, i, k);
    assert forall|j: int| 0 <= j < row.len() implies (#[trigger] row[j]) < points.len() && row[j]
        != i by {
        assert(list.contains(row[j]));
        let y = choose|y: int| 0 <= y < list.len() && list[y] == row[j];
    }
    assert(list.no_duplicates());
}

/// The edges of a graph that start at one of its first `n` nodes.
spec fn edges_from(adj: Seq<Seq<u32>>, n: nat) -> Set<(u32, u32)> {
    Set::new(|e: (u32, u32)| e.0 < n && edge(adj, e.0, e.1))
}

/// The pairs of neighbours, each with the smaller number first.
pub open spec fn neighbour_pairs(adj: Seq<Seq<u32>>) -> Set<(u32, u32)> {
    Set::new(|e: (u32, u32)| e.0 < e.1 && edge(adj, e.0, e.1))
}

/// The pairs of neighbours, each with the greater number first.
spec fn turned_pairs(adj: Seq<Seq<u32>>) -> Set<(u32, u32)> {
    Set::new(|e: (u32, u32)| e.0 > e.1 && edge(adj, e.0, e.1))
}

proof fn lemma_row_edges(list: Seq<u32>, u: u32)
    requires
        list.no_duplicates(),
    ensures
        Set::new(|e: (u32, u32)| e.0 == u && list.contains(e.1)).finite(),
        Set::new(|e: (u32, u32)| e.0 == u && list.contains(e.1)).len() == list.len(),
{
    let row = Set::new(|e: (u32, u32)| e.0 == u && list.contains(e.1));
    let f = |v: u32| (u, v);
    list.unique_seq_to_set();
    vstd::seq_lib::seq_to_set_is_finite(list);
    assert(row =~= list.to_set().map(f)) by {
        assert forall|e: (u32, u32)| row.contains(e) implies list.to_set().map(f).contains(e) by {
            assert(list.to_set().contains(e.1));
            assert(f(e.1) == e);
        }
    }
    vstd::set_lib::lemma_map_size(list.to_set(), row, f);
}

proof fn lemma_edges_from(adj: Seq<Seq<u32>>, n: nat)
    requires
        n <= adj.len() <= 0x1_0000_0000,
        forall|u: int| 0 <= u < adj.len() ==> (#[trigger] adj[u]).no_duplicates(),
    ensures
        edges_from(adj, n).finite(),
        edges_from(adj, n).len() == cells(adj.take(n as int)),
    decreases n,
{
    broadcast use vstd::set::group_set_axioms;

    if n == 0 {
        assert(edges_from(adj, n) =~= Set::empty());
        assert(adj.take(0) =~= Seq::empty());
    } else {
        let m = (n - 1) as nat;
        lemma_edges_from(adj, m);
        let list = adj[m as int];
        let u = m as u32;
        let row = Set::new(|e: (u32, u32)| e.0 == u && list.contains(e.1));
        lemma_row_edges(list, u);
        assert(edges_from(adj, n) =~= edges_from(adj, m).union(row));
        assert(edges_from(adj, m).disjoint(row));
        vstd::set_lib::lemma_set_disjoint_lens(edges_from(adj, m), row);
        assert(adj.take(n as int).drop_last() =~= adj.take(m as int));
        assert(adj.take(n as int).last() == list);
    }
}

/// Half of the entries of a symmetric graph's lists is the number of pairs of
/// neighbours.
pub proof fn lemma_num_edges<R: Scalar>(points: Seq<Point<R>>, k: nat, out: Seq<Seq<u32>>)
    requires
        points.len() <= 0x1_0000_0000,
        symmetrized(knn_rows(points, k), out),
    ensures
        neighbour_pairs(out).finite(),
        cells(out) == 2 * neighbour_pairs(out).len(),
{
    broadcast use vstd::set::group_set_axioms;

    let n = out.len();
    let all = edges_from(out, n);
    let up = neighbour_pairs(out);
    let down = turned_pairs(out);
    let turn = |e: (u32, u32)| (e.1, e.0);
    assert forall|u: int| 0 <= u < out.len() implies (#[trigger] out[u]).no_duplicates() by {
        let list = out[u];
        assert(strictly_ascending(list));
        assert forall|i: int, j: int| 0 <= i < list.len() && 0 <= j < list.len() && i != j implies
            list[i] != list[j] by {
            if i < j {
                assert(list[i] < list[j]);
            } else {
                assert(list[j] < list[i]);
            }
        }
    }
    lemma_edges_from(out, n);
    assert(out.take(n as int) =~= out);
    assert forall|u: u32, v: u32| #[trigger] edge(out, u, v) implies edge(out, v, u) && u != v by {
        lemma_knn_graph(points, k, out, u, v);
    }
    assert(all =~= up.union(down));
    assert(up.disjoint(down));
    assert(up.subset_of(all) && down.subset_of(all));
    vstd::set_lib::lemma_set_subset_finite(all, up);
    vstd::set_lib::lemma_set_subset_finite(all, down);
    assert(down =~= up.map(turn)) by {
        assert forall|e: (u32, u32)| down.contains(e) implies up.map(turn).contains(e) by {
            let t = (e.1, e.0);
            assert(up.contains(t));
            assert(turn(t) == e);
        }
    }
    vstd::set_lib::lemma_map_size(up, down, turn);
    vstd::set_lib::lemma_set_disjoint_lens(up, down);
}

/// Selects the `k` candidates with the smallest distances, by ascending distance.
pub fn top_k<R: Scalar>(cands: Vec<(R, u32)>, k: usize) -> (r: Vec<(R, u32)>)
    ensures
        r@ == payloads(crate::sorting::top_k(by_distance(cands@), k as nat)),
{
    let n: usize = cands.len();
    let mut keyed: Vec<(u64, (R, u32))> = Vec::new();
    let mut i: usize = 0;
    while i < n
        invariant
            i <= n,
            n == cands@.len(),
            keyed@ =~= by_distance(cands@).take(i as int),
        decreases n - i,
    {
        keyed.push((cands[i].0.key(), cands[i]));
        i += 1;
    }
    assert(by_distance(cands@).take(n as int) =~= by_distance(cands@));
    let top = select_top_k(keyed.as_slice(), k);
    take_payloads(top.as_slice())
}

/// Candidates, keyed by their distance.
pub open spec fn by_distance<R: Scalar>(cands: Seq<(R, u32)>) -> Seq<(u64, (R, u32))> {
    Seq::new(cands.len(), |i: int| (cands[i].0.key_of(), cands[i]))
}

} // verus!
