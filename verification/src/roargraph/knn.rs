//! Greedy search over graphs of nearest neighbours.

use vstd::prelude::*;

use crate::beam::{
    is_graph, listed_below, search_from_all, search_many, Nodes, Rules, Space,
};
use crate::beam_laws::{lemma_search_from_all, lemma_search_from_all_exact, reached};
use crate::bytes::{cells, count_cells};
use crate::heap::{in_order, lemma_in_order, lemma_in_order_contains};
use crate::idlist::{lemma_sorted_set, sort_dedup, sorted_set};
use crate::metric::Distance;
use crate::reach::{edge, lemma_reach_self, lemma_reach_step};
use crate::roargraph::baseline::below;
use crate::roargraph::{
    as_hit, copy_entries, count_components, hit_ids, ids, lemma_top_hits, lemma_top_hits_distinct,
    ranks, top_hits, vecs, xorshift_after, xorshift_draw, xorshift_seeded, AnnIndex, Entry,
    FlatIndex, Hit, XorShift,
};
use crate::sorting::{ascending, first_n, lemma_same_keys};
use crate::table::rows;

verus! {

/// The numbers of a list other than `id`.
pub open spec fn others(list: Seq<u32>, id: u32) -> Seq<u32>
    decreases list.len(),
{
    if list.len() == 0 {
        list
    } else {
        let rest = others(list.drop_last(), id);
        if list.last() != id {
            rest.push(list.last())
        } else {
            rest
        }
    }
}

/// The neighbours of entry `i`: the `k` other entries with the greatest scores
/// among the `k + 1` best ones, in ascending order.
pub open spec fn neighbours_of<T, D: Distance<T>>(
    metric: D,
    vectors: Seq<Seq<T>>,
    numbers: Seq<u32>,
    k: nat,
    i: int,
) -> Seq<u32> {
    sorted_set(
        first_n(
            others(hit_ids(top_hits(metric, vectors[i], vectors, numbers, k + 1)), numbers[i]),
            k,
        ),
    )
}

/// The graph of nearest neighbours.
pub open spec fn knn_graph<T, D: Distance<T>>(
    metric: D,
    vectors: Seq<Seq<T>>,
    numbers: Seq<u32>,
    k: nat,
) -> Seq<Seq<u32>> {
    Seq::new(vectors.len(), |i: int| neighbours_of(metric, vectors, numbers, k, i))
}

/// Entry nodes drawn evenly.
pub open spec fn drawn_nodes(seed: u64, count: nat, n: nat) -> Seq<u32> {
    Seq::new(
        count,
        |i: int| (xorshift_draw(xorshift_seeded(seed), i as nat) as int % n as int) as u32,
    )
}

/// What is left after other numbers are dropped.
pub proof fn lemma_others(list: Seq<u32>, id: u32)
    ensures
        others(list, id).len() <= list.len(),
        forall|i: int|
            0 <= i < others(list, id).len() ==> list.contains(#[trigger] others(list, id)[i])
                && others(list, id)[i] != id,
        forall|x: u32| #[trigger] list.contains(x) && x != id ==> others(list, id).contains(x),
        list.contains(id) ==> others(list, id).len() < list.len(),
    decreases list.len(),
{
    if list.len() > 0 {
        let t = list.drop_last();
        lemma_others(t, id);
        let rest = others(t, id);
        let now = others(list, id);
        assert forall|i: int| 0 <= i < now.len() implies list.contains(#[trigger] now[i]) && now[i]
            != id by {
            if i < rest.len() {
                assert(now[i] == rest[i]);
                assert(t.contains(rest[i]));
                let j = choose|j: int| 0 <= j < t.len() && t[j] == rest[i];
                assert(list[j] == now[i]);
            } else {
                assert(list[list.len() - 1] == now[i]);
            }
        }
        assert forall|x: u32| #[trigger] list.contains(x) && x != id implies now.contains(x) by {
            let j = choose|j: int| 0 <= j < list.len() && list[j] == x;
            if j < t.len() {
                assert(t[j] == x);
                assert(t.contains(x));
                assert(rest.contains(x));
                let i = choose|i: int| 0 <= i < rest.len() && rest[i] == x;
                assert(now[i] == x);
            } else {
                assert(now[rest.len() as int] == x);
            }
        }
        if list.contains(id) && list.last() != id {
            let j = choose|j: int| 0 <= j < list.len() && list[j] == id;
            assert(t[j] == id);
            assert(t.contains(id));
        }
    }
}

/// The graph of nearest neighbours: neighbours are numbers of entries, no entry
/// is its own neighbour, and none has more than `k`.
pub proof fn lemma_knn_graph<T, D: Distance<T>>(
    metric: D,
    vectors: Seq<Seq<T>>,
    numbers: Seq<u32>,
    k: nat,
    i: int,
)
    requires
        vectors.len() == numbers.len(),
        0 <= i < vectors.len(),
    ensures
        neighbours_of(metric, vectors, numbers, k, i).len() <= k,
        neighbours_of(metric, vectors, numbers, k, i).no_duplicates(),
        forall|x: int|
            0 <= x < neighbours_of(metric, vectors, numbers, k, i).len() ==> numbers.contains(
                #[trigger] neighbours_of(metric, vectors, numbers, k, i)[x],
            ) && neighbours_of(metric, vectors, numbers, k, i)[x] != numbers[i],
{
    let found = top_hits(metric, vectors[i], vectors, numbers, k + 1);
    let list = hit_ids(found);
    let rest = others(list, numbers[i]);
    let few = first_n(rest, k);
    let out = neighbours_of(metric, vectors, numbers, k, i);
    lemma_top_hits(metric, vectors[i], vectors, numbers, k + 1);
    lemma_others(list, numbers[i]);
    lemma_sorted_set(few);
    assert forall|x: int| 0 <= x < out.len() implies numbers.contains(#[trigger] out[x]) && out[x]
        != numbers[i] by {
        assert(out.contains(out[x]));
        assert(few.contains(out[x]));
        let y = choose|y: int| 0 <= y < few.len() && few[y] == out[x];
        assert(rest[y] == out[x]);
        assert(list.contains(rest[y]));
        let z = choose|z: int| 0 <= z < list.len() && list[z] == out[x];
        assert(found[z].id == out[x]);
        let j = choose|j: int|
            0 <= j < vectors.len() && found[z] == (Hit {
                id: numbers[j],
                score: metric.spec_key(vectors[i], #[trigger] vectors[j]),
            });
        assert(numbers[j] == out[x]);
    }
}

/// The walk of this module: every node enters the frontier, and nodes compete
/// for a place among the results; the greater number wins.
pub open spec fn greedy(ef: usize) -> Rules {
    Rules { ef, selective: false, contested: true, high_first: true, high_wins: true }
}

/// The nodes by descending score.
pub open spec fn scored_nodes<T, D: Distance<T>>(
    metric: D,
    q: Seq<T>,
    vectors: Seq<Seq<T>>,
) -> Nodes {
    Nodes {
        count: vectors.len(),
        ranks: |id: u32| (u64::MAX - metric.spec_key(q, vectors[id as int])) as u64,
        allowed: |id: u32| true,
    }
}

struct Scored<'a, T, D> {
    metric: &'a D,
    q: &'a [T],
    entries: &'a Vec<Entry<T>>,
}

impl<'a, T, D: Distance<T>> Space for Scored<'a, T, D> {
    closed spec fn nodes(&self) -> Nodes {
        scored_nodes(*self.metric, self.q@, vecs(self.entries@))
    }

    fn rank(&self, id: u32) -> (r: u64) {
        assert(vecs(self.entries@)[id as int] == self.entries@[id as int].vec@);
        u64::MAX - self.metric.key(self.q, self.entries[id as usize].vec.as_slice())
    }

    fn allow(&self, id: u32) -> (b: bool) {
        true
    }
}

/// Results of a walk as hits.
pub open spec fn walk_hits(found: Seq<(u64, u32)>) -> Seq<Hit> {
    Seq::new(
        found.len(),
        |i: int| Hit { id: found[i].1, score: (u64::MAX - found[i].0) as u64 },
    )
}

/// What a greedy walk returns.
pub open spec fn greedy_hits<T, D: Distance<T>>(
    metric: D,
    q: Seq<T>,
    vectors: Seq<Seq<T>>,
    graph: Seq<Seq<u32>>,
    entry_points: Seq<u32>,
    ef: usize,
    k: nat,
) -> Seq<Hit> {
    first_n(
        walk_hits(
            search_from_all(scored_nodes(metric, q, vectors), greedy(ef), graph, entry_points),
        ),
        k,
    )
}

/// The hits of a greedy walk: no more than `k`, by descending score, each node
/// once, each reachable from an entry point and under its own score.
pub proof fn lemma_greedy_hits<T, D: Distance<T>>(
    metric: D,
    q: Seq<T>,
    vectors: Seq<Seq<T>>,
    graph: Seq<Seq<u32>>,
    entry_points: Seq<u32>,
    ef: usize,
    k: nat,
)
    requires
        is_graph(graph, vectors.len()),
        listed_below(entry_points, vectors.len()),
    ensures
        ({
            let r = greedy_hits(metric, q, vectors, graph, entry_points, ef, k);
            &&& r.len() <= k
            &&& r.len() <= ef
            &&& forall|i: int, j: int|
                0 <= i <= j < r.len() ==> (#[trigger] r[i]).score >= (#[trigger] r[j]).score
            &&& forall|i: int, j: int|
                0 <= i < j < r.len() ==> (#[trigger] r[i]).id != (#[trigger] r[j]).id
            &&& forall|i: int|
                0 <= i < r.len() ==> {
                    &&& (#[trigger] r[i]).id < vectors.len()
                    &&& r[i].score == metric.spec_key(q, vectors[r[i].id as int])
                    &&& reached(graph, entry_points, r[i].id)
                }
        }),
{
    let nodes = scored_nodes(metric, q, vectors);
    lemma_search_from_all(nodes, greedy(ef), graph, entry_points);
    let found = search_from_all(nodes, greedy(ef), graph, entry_points);
    let r = greedy_hits(metric, q, vectors, graph, entry_points, ef, k);
    assert forall|i: int, j: int| 0 <= i <= j < r.len() implies (#[trigger] r[i]).score >= (
    #[trigger] r[j]).score by {
        assert(found[i].0 <= found[j].0);
    }
    assert forall|i: int, j: int| 0 <= i < j < r.len() implies (#[trigger] r[i]).id != (
    #[trigger] r[j]).id by {
        assert(found[i].1 != found[j].1);
    }
    assert forall|i: int| 0 <= i < r.len() implies {
        &&& (#[trigger] r[i]).id < vectors.len()
        &&& r[i].score == metric.spec_key(q, vectors[r[i].id as int])
        &&& reached(graph, entry_points, r[i].id)
    } by {
        assert(found[i].0 == nodes.rank_of(found[i].1));
    }
}

/// A greedy walk that may return a hit and has an entry point does so, and its
/// first hit is at least as good as every entry point.
pub proof fn lemma_greedy_nonempty<T, D: Distance<T>>(
    metric: D,
    q: Seq<T>,
    vectors: Seq<Seq<T>>,
    graph: Seq<Seq<u32>>,
    entry_points: Seq<u32>,
    ef: usize,
    k: nat,
)
    requires
        is_graph(graph, vectors.len()),
        listed_below(entry_points, vectors.len()),
        entry_points.len() >= 1,
        ef >= 1,
        k >= 1,
    ensures
        ({
            let r = greedy_hits(metric, q, vectors, graph, entry_points, ef, k);
            &&& r.len() >= 1
            &&& forall|i: int|
                0 <= i < entry_points.len() ==> r[0].score >= metric.spec_key(
                    q,
                    vectors[#[trigger] entry_points[i] as int],
                )
        }),
{
    let nodes = scored_nodes(metric, q, vectors);
    lemma_search_from_all(nodes, greedy(ef), graph, entry_points);
    let found = search_from_all(nodes, greedy(ef), graph, entry_points);
    let r = greedy_hits(metric, q, vectors, graph, entry_points, ef, k);
    assert(nodes.admits(entry_points[0]));
    assert(r[0] == walk_hits(found)[0]);
    assert forall|i: int| 0 <= i < entry_points.len() implies r[0].score >= metric.spec_key(
        q,
        vectors[#[trigger] entry_points[i] as int],
    ) by {
        assert(nodes.admits(entry_points[i]));
        assert(found[0].0 <= nodes.rank_of(entry_points[i]));
    }
}

/// Every node is a neighbour of every other node.
pub open spec fn complete(graph: Seq<Seq<u32>>) -> bool {
    forall|a: u32, b: u32|
        a < graph.len() && b < graph.len() && a != b ==> #[trigger] edge(graph, a, b)
}

/// The graph of nearest neighbours is complete where each of the entries, numbered
/// from zero, has as many neighbours as there are other entries.
pub proof fn lemma_knn_complete<T, D: Distance<T>>(metric: D, vectors: Seq<Seq<T>>, k: nat)
    requires
        vectors.len() <= 0x1_0000_0000,
        k + 1 >= vectors.len(),
    ensures
        complete(knn_graph(metric, vectors, below(vectors.len()), k)),
{
    let n = vectors.len();
    let numbers = below(n);
    let graph = knn_graph(metric, vectors, numbers, k);
    assert forall|a: u32, b: u32|
        a < graph.len() && b < graph.len() && a != b implies #[trigger] edge(graph, a, b) by {
        let q = vectors[a as int];
        let found = top_hits(metric, q, vectors, numbers, k + 1);
        let list = hit_ids(found);
        let rest = others(list, a);
        lemma_top_hits(metric, q, vectors, numbers, k + 1);
        lemma_top_hits(metric, q, vectors, numbers, n);
        assert(found =~= top_hits(metric, q, vectors, numbers, n));
        lemma_listed(metric, q, vectors, list, a);
        lemma_listed(metric, q, vectors, list, b);
        lemma_others(list, a);
        lemma_sorted_set(first_n(rest, k));
        assert(first_n(rest, k) =~= rest);
        assert(graph[a as int] == neighbours_of(metric, vectors, numbers, k, a as int));
        assert(numbers[a as int] == a);
        assert(rest.contains(b));
        assert(sorted_set(rest).contains(b));
    }
}

/// The numbers that a scan for all entries reports hold each entry.
proof fn lemma_listed<T, D: Distance<T>>(
    metric: D,
    q: Seq<T>,
    vectors: Seq<Seq<T>>,
    list: Seq<u32>,
    id: u32,
)
    requires
        id < vectors.len() <= 0x1_0000_0000,
        list == hit_ids(top_hits(metric, q, vectors, below(vectors.len()), vectors.len())),
    ensures
        list.contains(id),
{
    let all = top_hits(metric, q, vectors, below(vectors.len()), vectors.len());
    lemma_all_scanned(metric, q, vectors, id);
    let hit = Hit { id, score: metric.spec_key(q, vectors[id as int]) };
    let i = choose|i: int| 0 <= i < all.len() && all[i] == hit;
    assert(list[i] == id);
}

/// On a complete graph every node is reached from any entry point.
pub proof fn lemma_complete_reached(graph: Seq<Seq<u32>>, entry_points: Seq<u32>, id: u32)
    requires
        complete(graph),
        entry_points.len() >= 1,
        entry_points[0] < graph.len(),
        id < graph.len(),
    ensures
        reached(graph, entry_points, id),
{
    let e = entry_points[0];
    lemma_reach_self(graph, e);
    if id != e {
        assert(edge(graph, e, id));
        lemma_reach_step(graph, e, e, id);
    }
}

/// A greedy walk that is as wide as the graph returns the scores of the flat scan
/// if every node is reached, as it is on a complete graph.
pub proof fn lemma_greedy_exact<T, D: Distance<T>>(
    metric: D,
    q: Seq<T>,
    vectors: Seq<Seq<T>>,
    graph: Seq<Seq<u32>>,
    entry_points: Seq<u32>,
    ef: usize,
    k: nat,
)
    requires
        is_graph(graph, vectors.len()),
        listed_below(entry_points, vectors.len()),
        vectors.len() <= 0x1_0000_0000,
        ef >= vectors.len(),
        (complete(graph) && entry_points.len() >= 1) || forall|id: u32|
            id < vectors.len() ==> reached(graph, entry_points, id),
    ensures
        ({
            let r = greedy_hits(metric, q, vectors, graph, entry_points, ef, k);
            let scan = top_hits(metric, q, vectors, below(vectors.len()), k);
            &&& r.len() == scan.len()
            &&& forall|i: int| 0 <= i < r.len() ==> (#[trigger] r[i]).score == scan[i].score
        }),
{
    let n = vectors.len();
    let numbers = below(n);
    let nodes = scored_nodes(metric, q, vectors);
    lemma_search_from_all(nodes, greedy(ef), graph, entry_points);
    let found = search_from_all(nodes, greedy(ef), graph, entry_points);
    let r = greedy_hits(metric, q, vectors, graph, entry_points, ef, k);
    let scan = top_hits(metric, q, vectors, numbers, k);
    let all = top_hits(metric, q, vectors, numbers, n);
    lemma_top_hits(metric, q, vectors, numbers, k);
    lemma_top_hits(metric, q, vectors, numbers, n);
    assert(numbers.no_duplicates());
    lemma_top_hits_distinct(metric, q, vectors, numbers, n);
    let flat = Seq::new(all.len(), |i: int| ((u64::MAX - all[i].score) as u64, all[i].id));
    assert(ascending(flat)) by {
        assert forall|i: int, j: int| 0 <= i <= j < flat.len() implies (#[trigger] flat[i]).0 <= (
        #[trigger] flat[j]).0 by {
            assert(all[i].score >= all[j].score);
        }
    }
    assert(flat.no_duplicates()) by {
        assert forall|i: int, j: int| 0 <= i < flat.len() && 0 <= j < flat.len() && i != j implies
            flat[i] != flat[j] by {
            assert(hit_ids(all)[i] != hit_ids(all)[j]);
        }
    }
    assert(found.no_duplicates());
    assert forall|x: (u64, u32)| #[trigger] found.contains(x) <==> flat.contains(x) by {
        let id = x.1;
        if found.contains(x) {
            let i = choose|i: int| 0 <= i < found.len() && found[i] == x;
            assert(id < n && x.0 == nodes.rank_of(id));
            let hit = Hit { id: numbers[id as int], score: metric.spec_key(q, vectors[id as int]) };
            assert(all.contains(hit)) by {
                lemma_all_scanned(metric, q, vectors, id);
            }
            let j = choose|j: int| 0 <= j < all.len() && all[j] == hit;
            assert(flat[j] == x);
        }
        if flat.contains(x) {
            let i = choose|i: int| 0 <= i < flat.len() && flat[i] == x;
            let j = choose|j: int|
                0 <= j < n && all[i] == (Hit {
                    id: numbers[j],
                    score: metric.spec_key(q, #[trigger] vectors[j]),
                });
            assert(id == j && id < n);
            if complete(graph) && entry_points.len() >= 1 {
                assert(entry_points[0] < n);
                lemma_complete_reached(graph, entry_points, id);
            }
            lemma_search_from_all_exact(nodes, greedy(ef), graph, entry_points, id);
            assert(nodes.admits(id));
        }
    }
    lemma_same_keys(found, flat);
    assert forall|i: int| 0 <= i < r.len() implies (#[trigger] r[i]).score == scan[i].score by {
        assert(found[i].0 == flat[i].0);
        assert(scan[i] == all[i]);
    }
}

/// A scan for all entries finds each of them.
proof fn lemma_all_scanned<T, D: Distance<T>>(metric: D, q: Seq<T>, vectors: Seq<Seq<T>>, id: u32)
    requires
        id < vectors.len() <= 0x1_0000_0000,
    ensures
        top_hits(metric, q, vectors, below(vectors.len()), vectors.len()).contains(
            Hit { id, score: metric.spec_key(q, vectors[id as int]) },
        ),
{
    let numbers = below(vectors.len());
    let all = ranks(metric, q, vectors, numbers);
    let m = all.to_multiset();
    all.to_multiset_ensures();
    lemma_in_order(m);
    lemma_in_order_contains(m);
    let s = in_order(m);
    assert(all.contains(all[id as int]));
    assert(m.contains(all[id as int]));
    assert(s.contains(all[id as int]));
    let i = choose|i: int| 0 <= i < s.len() && s[i] == all[id as int];
    assert(top_hits(metric, q, vectors, numbers, vectors.len())[i] == as_hit(all[id as int]));
}

/// Greedy search over a graph of nearest neighbours.
pub struct KnnGraphIndex<T, D> {
    entries: Vec<Entry<T>>,
    /// The neighbours of each node.
    graph: Vec<Vec<u32>>,
    entry_points: Vec<u32>,
    ef: usize,
    metric: D,
}

/// Collects the numbers of hits other than `id`, at most `k` of them.
fn collect_others(found: &[Hit], id: u32, k: usize) -> (r: Vec<u32>)
    ensures
        r@ == first_n(others(hit_ids(found@), id), k as nat),
{
    let n: usize = found.len();
    let ghost list = hit_ids(found@);
    let mut r: Vec<u32> = Vec::new();
    let mut i: usize = 0;
    assert(list.take(0) =~= Seq::empty());
    while i < n
        invariant
            i <= n,
            n == found@.len(),
            list == hit_ids(found@),
            r@ == others(list.take(i as int), id),
        decreases n - i,
    {
        proof {
            assert(list.take(i + 1).drop_last() =~= list.take(i as int));
        }
        if found[i].id != id {
            r.push(found[i].id);
        }
        i += 1;
    }
    assert(list.take(n as int) =~= list);
    r.truncate(k);
    r
}

impl<T: Copy, D: Distance<T> + Copy> KnnGraphIndex<T, D> {
    /// The vectors of the entries.
    pub closed spec fn vectors(&self) -> Seq<Seq<T>> {
        vecs(self.entries@)
    }

    /// The neighbours of each node.
    pub closed spec fn adjacency(&self) -> Seq<Seq<u32>> {
        rows(self.graph@)
    }

    /// The nodes that a walk starts from.
    pub closed spec fn starts(&self) -> Seq<u32> {
        self.entry_points@
    }

    /// The width of the walk.
    pub closed spec fn width(&self) -> usize {
        self.ef
    }

    /// The similarity.
    pub closed spec fn similarity(&self) -> D {
        self.metric
    }

    /// Neighbours and entry points exist.
    pub open spec fn wf(&self) -> bool {
        &&& is_graph(self.adjacency(), self.vectors().len())
        &&& listed_below(self.starts(), self.vectors().len())
    }

    /// Builds the graph by exact search, and draws the entry points.
    pub fn build(
        entries: &[Entry<T>],
        k_graph: usize,
        ef: usize,
        n_entry: usize,
        seed: u64,
        metric: D,
    ) -> (r: Self)
        requires
            k_graph < usize::MAX,
            entries@.len() <= 0x1_0000_0000,
            n_entry == 0 || entries@.len() > 0,
        ensures
            listed_below(ids(entries@), entries@.len()) ==> r.wf(),
            r.vectors() == vecs(entries@),
            r.adjacency() == knn_graph(metric, vecs(entries@), ids(entries@), k_graph as nat),
            r.starts() == drawn_nodes(seed, n_entry as nat, entries@.len()),
            r.width() == ef,
            r.similarity() == metric,
    {
        let flat = FlatIndex::build(entries, metric);
        let n: usize = entries.len();
        let ghost vectors = vecs(entries@);
        let ghost numbers = ids(entries@);
        let ghost all = knn_graph(metric, vectors, numbers, k_graph as nat);
        let mut graph: Vec<Vec<u32>> = Vec::new();
        let mut i: usize = 0;
        while i < n
            invariant
                i <= n,
                n == entries@.len(),
                k_graph < usize::MAX,
                flat.vectors() == vectors,
                flat.numbers() == numbers,
                flat.similarity() == metric,
                vectors == vecs(entries@),
                numbers == ids(entries@),
                all == knn_graph(metric, vectors, numbers, k_graph as nat),
                rows(graph@) =~= all.take(i as int),
            decreases n - i,
        {
            let e: &Entry<T> = &entries[i];
            let found = flat.search(e.vec.as_slice(), k_graph + 1);
            let few = collect_others(found.as_slice(), e.id, k_graph);
            let list = sort_dedup(few.as_slice());
            let ghost done = rows(graph@);
            assert(list@ == all[i as int]);
            graph.push(list);
            assert(rows(graph@) =~= done.push(list@));
            i += 1;
        }
        assert(all.take(n as int) =~= all);
        proof {
            if listed_below(numbers, n as nat) {
                assert forall|i: int| 0 <= i < n implies listed_below(
                    #[trigger] all[i],
                    n as nat,
                ) by {
                    lemma_knn_graph(metric, vectors, numbers, k_graph as nat, i);
                    let list = all[i];
                    assert forall|x: int| 0 <= x < list.len() implies (#[trigger] list[x]) < n by {
                        assert(numbers.contains(list[x]));
                        let j = choose|j: int| 0 <= j < numbers.len() && numbers[j] == list[x];
                        assert(numbers[j] < n);
                    }
                }
            }
        }
        let mut rng = XorShift::new(seed);
        let ghost s = rng@;
        let mut entry_points: Vec<u32> = Vec::new();
        let mut j: usize = 0;
        while j < n_entry
            invariant
                j <= n_entry,
                n_entry == 0 || n > 0,
                n <= 0x1_0000_0000,
                s == xorshift_seeded(seed),
                rng@ == xorshift_after(s, j as nat),
                entry_points@ =~= drawn_nodes(seed, j as nat, n as nat),
                listed_below(entry_points@, n as nat),
            decreases n_entry - j,
        {
            let draw: u64 = rng.next_u64();
            assert(draw == xorshift_draw(s, j as nat));
            entry_points.push((draw % n as u64) as u32);
            j += 1;
        }
        let r = KnnGraphIndex { entries: copy_entries(entries), graph, entry_points, ef, metric };
        r
    }

    /// Walks the graph from the entry points.
    fn greedy_search(&self, query: &[T], k: usize) -> (r: Vec<Hit>)
        requires
            self.wf(),
        ensures
            r@ == greedy_hits(
                self.similarity(),
                query@,
                self.vectors(),
                self.adjacency(),
                self.starts(),
                self.width(),
                k as nat,
            ),
    {
        let space = Scored { metric: &self.metric, q: query, entries: &self.entries };
        let rules = Rules {
            ef: self.ef,
            selective: false,
            contested: true,
            high_first: true,
            high_wins: true,
        };
        let found = search_many(&space, rules, &self.graph, self.entry_points.as_slice());
        let n: usize = found.len();
        let ghost all = walk_hits(found@);
        let mut r: Vec<Hit> = Vec::new();
        let mut i: usize = 0;
        while i < n
            invariant
                i <= n,
                n == found@.len(),
                all == walk_hits(found@),
                r@ =~= all.take(i as int),
            decreases n - i,
        {
            r.push(Hit { id: found[i].1, score: u64::MAX - found[i].0 });
            i += 1;
        }
        assert(all.take(n as int) =~= all);
        r.truncate(k);
        r
    }
}

impl<T: Copy, D: Distance<T> + Copy> KnnGraphIndex<T, D> {
    /// Takes the index apart: entries, neighbours, and entry points.
    pub(crate) fn into_parts(self) -> (r: (Vec<Entry<T>>, Vec<Vec<u32>>, Vec<u32>))
        ensures
            vecs(r.0@) == self.vectors(),
            rows(r.1@) == self.adjacency(),
            r.2@ == self.starts(),
    {
        (self.entries, self.graph, self.entry_points)
    }

    /// Puts an index together.
    pub(crate) fn from_parts(
        entries: Vec<Entry<T>>,
        graph: Vec<Vec<u32>>,
        entry_points: Vec<u32>,
        ef: usize,
        metric: D,
    ) -> (r: Self)
        ensures
            r.vectors() == vecs(entries@),
            r.adjacency() == rows(graph@),
            r.starts() == entry_points@,
            r.width() == ef,
            r.similarity() == metric,
    {
        KnnGraphIndex { entries, graph, entry_points, ef, metric }
    }
}

impl<T: Copy, D: Distance<T> + Copy> AnnIndex<T> for KnnGraphIndex<T, D> {
    open spec fn ready(&self) -> bool {
        self.wf()
    }

    open spec fn found(&self, query: Seq<T>, k: nat) -> Seq<Hit> {
        greedy_hits(
            self.similarity(),
            query,
            self.vectors(),
            self.adjacency(),
            self.starts(),
            self.width(),
            k,
        )
    }

    open spec fn held(&self) -> nat {
        4 * (cells(self.vectors()) + cells(self.adjacency()) + self.starts().len())
    }

    open spec fn label(&self) -> Seq<char> {
        "KnnGraphIndex"@
    }

    fn search(&self, query: &[T], k: usize) -> (r: Vec<Hit>) {
        self.greedy_search(query, k)
    }

    fn memory_bytes(&self) -> (r: usize) {
        let components: usize = count_components(self.entries.as_slice());
        let edges: usize = count_cells(self.graph.as_slice());
        components * 4 + edges * 4 + self.entry_points.len() * 4
    }

    fn name(&self) -> (r: &'static str) {
        "KnnGraphIndex"
    }
}

} // verus!
