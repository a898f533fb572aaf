//! Graph of nearest neighbours with edges from a workload sample.

use vstd::prelude::*;

use crate::beam::{is_graph, lemma_below_len, listed_below};
use crate::bytes::cells;
use crate::idlist::{count_of, keep_distinct_ids, times_upto};
use crate::metric::Distance;
use crate::overlap::{distinct, lemma_distinct};
use crate::roargraph::knn::{drawn_nodes, knn_graph, lemma_knn_graph, KnnGraphIndex};
use crate::roargraph::{
    hit_ids, ids, lemma_top_hits, top_hits, vecs, AnnIndex, Entry, FlatIndex, Hit,
};
use crate::sorting::{lemma_top_k, select_top_k, top_k};
use crate::spaces::{payloads, take_payloads};
use crate::table::{holds, rows};

verus! {

/// A graph, and the number of edges that were added to it.
pub ghost struct Grown {
    pub graph: Seq<Seq<u32>>,
    pub added: nat,
}

/// Adds `b` to the neighbours of `a`, if there is room and it is not one yet.
pub open spec fn offered(g: Grown, a: u32, b: u32, cap: nat) -> Grown {
    let list = g.graph[a as int];
    if list.len() < cap && !list.contains(b) {
        Grown { graph: g.graph.update(a as int, list.push(b)), added: g.added + 1 }
    } else {
        g
    }
}

/// Adds the edges between `a` and `b`.
pub open spec fn paired(g: Grown, a: u32, b: u32, cap: nat) -> Grown {
    offered(offered(g, a, b, cap), b, a, cap)
}

/// Adds the edges between entry `i` of a list and those behind it, up to `j`.
pub open spec fn paired_row(g: Grown, list: Seq<u32>, i: nat, j: nat, cap: nat) -> Grown
    decreases j,
{
    if j <= i + 1 {
        g
    } else {
        paired(
            paired_row(g, list, i, (j - 1) as nat, cap),
            list[i as int],
            list[j - 1],
            cap,
        )
    }
}

/// Adds the edges between the first `i` entries of a list and those behind
/// them.
pub open spec fn paired_all(g: Grown, list: Seq<u32>, i: nat, cap: nat) -> Grown
    decreases i,
{
    if i == 0 {
        g
    } else {
        paired_row(
            paired_all(g, list, (i - 1) as nat, cap),
            list,
            (i - 1) as nat,
            list.len(),
            cap,
        )
    }
}

/// Adds the edges between all entries of each of the first `n` lists.
pub open spec fn augmented(g: Grown, lists: Seq<Seq<u32>>, n: nat, cap: nat) -> Grown
    decreases n,
{
    if n == 0 {
        g
    } else {
        let list = lists[n - 1];
        paired_all(augmented(g, lists, (n - 1) as nat, cap), list, list.len(), cap)
    }
}

/// What adding edges keeps: no neighbour is lost or moved, no list grows beyond
/// the cap or comes to hold a node twice, and the count is right.
pub open spec fn extends(base: Grown, g: Grown, cap: nat) -> bool {
    &&& g.graph.len() == base.graph.len()
    &&& forall|a: int|
        0 <= a < base.graph.len() ==> {
            let old_list = #[trigger] base.graph[a];
            let list = g.graph[a];
            &&& old_list.len() <= list.len()
            &&& list.take(old_list.len() as int) == old_list
            &&& list.len() <= cap || list == old_list
            &&& old_list.no_duplicates() ==> list.no_duplicates()
        }
    &&& g.added - base.added == cells(g.graph) - cells(base.graph)
}

/// The cells of a table after one row was replaced.
pub proof fn lemma_cells_update(table: Seq<Seq<u32>>, a: int, row: Seq<u32>)
    requires
        0 <= a < table.len(),
    ensures
        cells(table.update(a, row)) == cells(table) - table[a].len() + row.len(),
    decreases table.len(),
{
    let t = table.update(a, row);
    if a == table.len() - 1 {
        assert(t.drop_last() =~= table.drop_last());
    } else {
        lemma_cells_update(table.drop_last(), a, row);
        assert(t.drop_last() =~= table.drop_last().update(a, row));
    }
}

proof fn lemma_offered(base: Grown, g: Grown, a: u32, b: u32, cap: nat)
    requires
        extends(base, g, cap),
        is_graph(g.graph, base.graph.len()),
        a < base.graph.len(),
        b < base.graph.len(),
    ensures
        extends(base, offered(g, a, b, cap), cap),
        is_graph(offered(g, a, b, cap).graph, base.graph.len()),
{
    let list = g.graph[a as int];
    let n = base.graph.len();
    let out = offered(g, a, b, cap);
    if list.len() < cap && !list.contains(b) {
        lemma_cells_update(g.graph, a as int, list.push(b));
        assert forall|x: int| 0 <= x < n implies listed_below(#[trigger] out.graph[x], n) by {
            assert(listed_below(g.graph[x], n));
        }
        assert forall|x: int| 0 <= x < n implies {
            let old_list = #[trigger] base.graph[x];
            let now = out.graph[x];
            &&& old_list.len() <= now.len()
            &&& now.take(old_list.len() as int) == old_list
            &&& now.len() <= cap || now == old_list
            &&& old_list.no_duplicates() ==> now.no_duplicates()
        } by {
            let old_list = base.graph[x];
            if x == a {
                assert(out.graph[x].take(old_list.len() as int) =~= list.take(
                    old_list.len() as int,
                ));
            }
        }
    }
}

proof fn lemma_paired_row(base: Grown, g: Grown, list: Seq<u32>, i: nat, j: nat, cap: nat)
    requires
        extends(base, g, cap),
        is_graph(g.graph, base.graph.len()),
        listed_below(list, base.graph.len()),
        j <= list.len(),
        i < list.len(),
    ensures
        extends(base, paired_row(g, list, i, j, cap), cap),
        is_graph(paired_row(g, list, i, j, cap).graph, base.graph.len()),
    decreases j,
{
    if j > i + 1 {
        lemma_paired_row(base, g, list, i, (j - 1) as nat, cap);
        let h = paired_row(g, list, i, (j - 1) as nat, cap);
        let a = list[i as int];
        let b = list[j - 1];
        lemma_offered(base, h, a, b, cap);
        lemma_offered(base, offered(h, a, b, cap), b, a, cap);
    }
}

proof fn lemma_paired_all(base: Grown, g: Grown, list: Seq<u32>, i: nat, cap: nat)
    requires
        extends(base, g, cap),
        is_graph(g.graph, base.graph.len()),
        listed_below(list, base.graph.len()),
        i <= list.len(),
    ensures
        extends(base, paired_all(g, list, i, cap), cap),
        is_graph(paired_all(g, list, i, cap).graph, base.graph.len()),
    decreases i,
{
    if i > 0 {
        lemma_paired_all(base, g, list, (i - 1) as nat, cap);
        lemma_paired_row(
            base,
            paired_all(g, list, (i - 1) as nat, cap),
            list,
            (i - 1) as nat,
            list.len(),
            cap,
        );
    }
}

/// Adding the edges of a workload loses no neighbour and moves none, no list
/// grows beyond the cap or comes to hold a node twice, and as many edges are
/// counted as were added.
pub proof fn lemma_augmented(base: Grown, lists: Seq<Seq<u32>>, n: nat, cap: nat)
    requires
        is_graph(base.graph, base.graph.len()),
        n <= lists.len(),
        forall|i: int| 0 <= i < n ==> listed_below(#[trigger] lists[i], base.graph.len()),
    ensures
        extends(base, augmented(base, lists, n, cap), cap),
        is_graph(augmented(base, lists, n, cap).graph, base.graph.len()),
    decreases n,
{
    if n == 0 {
        assert forall|a: int| 0 <= a < base.graph.len() implies {
            let list = #[trigger] base.graph[a];
            list.take(list.len() as int) == list
        } by {
            let list = base.graph[a];
            assert(list.take(list.len() as int) =~= list);
        }
    } else {
        lemma_augmented(base, lists, (n - 1) as nat, cap);
        assert(listed_below(lists[n - 1], base.graph.len()));
        lemma_paired_all(
            base,
            augmented(base, lists, (n - 1) as nat, cap),
            lists[n - 1],
            lists[n - 1].len(),
            cap,
        );
    }
}

/// The first entry of each of the first `n` lists that has one.
pub open spec fn landings(lists: Seq<Seq<u32>>, n: nat) -> Seq<u32>
    decreases n,
{
    if n == 0 {
        Seq::empty()
    } else {
        let rest = landings(lists, (n - 1) as nat);
        if lists[n - 1].len() > 0 {
            rest.push(lists[n - 1][0])
        } else {
            rest
        }
    }
}

/// The different numbers of a list with keys that put the most frequent one
/// first.
pub open spec fn by_frequency(list: Seq<u32>) -> Seq<(u64, u32)> {
    Seq::new(
        distinct(list).len(),
        |i: int|
            (
                (u64::MAX - times_upto(list, distinct(list)[i], list.len())) as u64,
                distinct(list)[i],
            ),
    )
}

/// Appends the first `n` numbers of `more` that are not in `list`, until there
/// are `most`.
pub open spec fn padded(list: Seq<u32>, more: Seq<u32>, n: nat, most: nat) -> Seq<u32>
    decreases n,
{
    if n == 0 {
        list
    } else {
        let rest = padded(list, more, (n - 1) as nat, most);
        if rest.len() < most && !rest.contains(more[n - 1]) {
            rest.push(more[n - 1])
        } else {
            rest
        }
    }
}

/// The entry points for a workload: the entries that are nearest to most of its
/// queries, and then the given ones. Among equally frequent entries the one that
/// is met first comes first.
pub open spec fn entry_nodes(lists: Seq<Seq<u32>>, given: Seq<u32>, most: nat) -> Seq<u32> {
    let frequent = payloads(top_k(by_frequency(landings(lists, lists.len())), most));
    let all = padded(frequent, given, given.len(), most);
    if lists.len() == 0 || all.len() == 0 {
        given
    } else {
        all
    }
}

proof fn lemma_padded(list: Seq<u32>, more: Seq<u32>, n: nat, most: nat, bound: nat)
    requires
        n <= more.len(),
        listed_below(list, bound),
        listed_below(more, bound),
    ensures
        listed_below(padded(list, more, n, most), bound),
        list.len() <= most ==> padded(list, more, n, most).len() <= most,
    decreases n,
{
    if n > 0 {
        lemma_padded(list, more, (n - 1) as nat, most, bound);
        assert(more[n - 1] < bound);
    }
}

/// Entry points exist.
proof fn lemma_entry_nodes(lists: Seq<Seq<u32>>, given: Seq<u32>, most: nat, bound: nat)
    requires
        listed_below(given, bound),
        forall|i: int| 0 <= i < lists.len() ==> listed_below(#[trigger] lists[i], bound),
    ensures
        listed_below(entry_nodes(lists, given, most), bound),
        given.len() <= most ==> entry_nodes(lists, given, most).len() <= most,
{
    let tops = landings(lists, lists.len());
    lemma_landings(lists, lists.len(), bound);
    lemma_distinct(tops);
    let keyed = by_frequency(tops);
    lemma_top_k(keyed, most);
    let frequent = payloads(top_k(keyed, most));
    assert forall|i: int| 0 <= i < frequent.len() implies (#[trigger] frequent[i]) < bound by {
        assert(keyed.contains(top_k(keyed, most)[i]));
        let j = choose|j: int| 0 <= j < keyed.len() && keyed[j] == top_k(keyed, most)[i];
        assert(distinct(tops).contains(distinct(tops)[j]));
        assert(tops.contains(frequent[i]));
        let x = choose|x: int| 0 <= x < tops.len() && tops[x] == frequent[i];
        assert(tops[x] < bound);
    }
    lemma_padded(frequent, given, given.len(), most, bound);
}

proof fn lemma_landings(lists: Seq<Seq<u32>>, n: nat, bound: nat)
    requires
        n <= lists.len(),
        forall|i: int| 0 <= i < lists.len() ==> listed_below(#[trigger] lists[i], bound),
    ensures
        listed_below(landings(lists, n), bound),
        landings(lists, n).len() <= n,
    decreases n,
{
    if n > 0 {
        lemma_landings(lists, (n - 1) as nat, bound);
        assert(listed_below(lists[n - 1], bound));
        if lists[n - 1].len() > 0 {
            assert(lists[n - 1][0] < bound);
        }
    }
}

/// The numbers of the `k` best entries for each query of a workload.
pub open spec fn workload_lists<T, D: Distance<T>>(
    metric: D,
    vectors: Seq<Seq<T>>,
    numbers: Seq<u32>,
    workload: Seq<Seq<T>>,
    k: nat,
) -> Seq<Seq<u32>> {
    Seq::new(
        workload.len(),
        |i: int| hit_ids(top_hits(metric, workload[i], vectors, numbers, k)),
    )
}

/// Adds `b` to the neighbours of `a`, if there is room and it is not one yet.
fn offer(graph: &mut Vec<Vec<u32>>, a: u32, b: u32, cap: usize, Ghost(added): Ghost<nat>) -> (r:
    bool)
    requires
        a < old(graph)@.len(),
    ensures
        (Grown {
            graph: rows(final(graph)@),
            added: added + if r {
                1nat
            } else {
                0
            },
        }) == offered(
            Grown { graph: rows(old(graph)@), added },
            a,
            b,
            cap as nat,
        ),
        final(graph)@.len() == old(graph)@.len(),
{
    let ghost before = rows(graph@);
    assert(before[a as int] == graph@[a as int]@);
    if graph[a as usize].len() < cap && !holds(graph[a as usize].as_slice(), b) {
        graph[a as usize].push(b);
        assert(rows(graph@) =~= before.update(a as int, before[a as int].push(b)));
        true
    } else {
        false
    }
}

/// Search over a graph of nearest neighbours with edges from a workload sample.
pub struct RoarGraphIndex<T, D> {
    inner: KnnGraphIndex<T, D>,
    aug_edges_added: usize,
}

impl<T: Copy, D: Distance<T> + Copy> RoarGraphIndex<T, D> {
    /// The index that is walked.
    pub closed spec fn walked(&self) -> KnnGraphIndex<T, D> {
        self.inner
    }

    /// The number of edges that were added.
    pub closed spec fn added(&self) -> nat {
        self.aug_edges_added as nat
    }

    /// Neighbours and entry points exist.
    pub open spec fn wf(&self) -> bool {
        self.walked().wf()
    }

    /// Builds the graph of nearest neighbours, adds the edges of the workload,
    /// and moves the entry points to where its queries land.
    pub fn build(
        entries: &[Entry<T>],
        workload: &[Entry<T>],
        k_graph: usize,
        k_bipartite: usize,
        k_aug: usize,
        ef: usize,
        n_entry: usize,
        metric: D,
    ) -> (r: Self)
        requires
            k_graph < usize::MAX,
            k_graph + k_aug <= usize::MAX,
            n_entry == 0 || entries@.len() > 0,
            entries@.len() <= 0x1_0000_0000,
            entries@.len() * at_most(k_graph + k_aug, entries@.len() as int) <= usize::MAX,
            forall|i: int| 0 <= i < entries@.len() ==> (#[trigger] entries@[i]).id < entries@.len(),
        ensures
            r.wf(),
            ({
                let vectors = vecs(entries@);
                let numbers = ids(entries@);
                let lists = workload_lists(
                    metric,
                    vectors,
                    numbers,
                    vecs(workload@),
                    if k_bipartite >= 1 {
                        k_bipartite as nat
                    } else {
                        1
                    },
                );
                let base = Grown {
                    graph: knn_graph(metric, vectors, numbers, k_graph as nat),
                    added: 0,
                };
                let out = augmented(base, lists, lists.len(), (k_graph + k_aug) as nat);
                &&& r.walked().vectors() == vectors
                &&& r.walked().adjacency() == out.graph
                &&& r.added() == out.added
                &&& r.walked().starts() == entry_nodes(
                    lists,
                    drawn_nodes(0xC0FFEE, n_entry as nat, entries@.len()),
                    n_entry as nat,
                )
                &&& r.walked().width() == ef
                &&& r.walked().similarity() == metric
                &&& extends(base, out, (k_graph + k_aug) as nat)
            }),
    {
        let base = KnnGraphIndex::build(entries, k_graph, ef, n_entry, 0xC0FFEE, metric);
        let flat = FlatIndex::build(entries, metric);
        let ghost vectors = vecs(entries@);
        let ghost numbers = ids(entries@);
        let ghost n = vectors.len();
        let k: usize = if k_bipartite >= 1 {
            k_bipartite
        } else {
            1
        };
        let cap: usize = k_graph + k_aug;
        let ghost lists = workload_lists(metric, vectors, numbers, vecs(workload@), k as nat);
        let total: usize = workload.len();
        let mut hits_of: Vec<Vec<u32>> = Vec::new();
        let mut w: usize = 0;
        while w < total
            invariant
                w <= total,
                total == workload@.len(),
                flat.vectors() == vectors,
                flat.numbers() == numbers,
                flat.similarity() == metric,
                lists == workload_lists(metric, vectors, numbers, vecs(workload@), k as nat),
                hits_of@.len() == w,
                rows(hits_of@) =~= lists.take(w as int),
            decreases total - w,
        {
            let found = flat.search(workload[w].vec.as_slice(), k);
            let count: usize = found.len();
            let mut list: Vec<u32> = Vec::new();
            let mut x: usize = 0;
            while x < count
                invariant
                    x <= count,
                    count == found@.len(),
                    list@ =~= hit_ids(found@).take(x as int),
                decreases count - x,
            {
                list.push(found[x].id);
                x += 1;
            }
            assert(list@ =~= hit_ids(found@));
            let ghost done = rows(hits_of@);
            hits_of.push(list);
            assert(rows(hits_of@) =~= done.push(list@));
            w += 1;
        }
        assert(lists.take(total as int) =~= lists);
        proof {
            assert forall|i: int| 0 <= i < lists.len() implies listed_below(
                #[trigger] lists[i],
                n,
            ) by {
                let q = vecs(workload@)[i];
                lemma_top_hits(metric, q, vectors, numbers, k as nat);
                let found = top_hits(metric, q, vectors, numbers, k as nat);
                let list = lists[i];
                assert forall|x: int| 0 <= x < list.len() implies (#[trigger] list[x]) < n by {
                    assert(found[x].id == list[x]);
                    let j = choose|j: int|
                        0 <= j < vectors.len() && found[x] == (Hit {
                            id: numbers[j],
                            score: metric.spec_key(q, #[trigger] vectors[j]),
                        });
                    assert(entries@[j].id < n);
                }
            }
        }
        let (kept, mut graph, given) = base.into_parts();
        let ghost start = Grown {
            graph: knn_graph(metric, vectors, numbers, k_graph as nat),
            added: 0,
        };
        proof {
            assert forall|i: int| 0 <= i < n implies (#[trigger] start.graph[i]).len() <= cap
                && start.graph[i].no_duplicates() by {
                lemma_knn_graph(metric, vectors, numbers, k_graph as nat, i);
            }
        }
        let mut added: usize = 0;
        let mut l: usize = 0;
        while l < total
            invariant
                l <= total,
                total == lists.len(),
                hits_of@.len() == total,
                lists == rows(hits_of@),
                n == start.graph.len(),
                start.added == 0,
                is_graph(start.graph, n),
                n * at_most(cap as int, n as int) <= usize::MAX,
                        forall|i: int| 0 <= i < n ==> (#[trigger] start.graph[i]).no_duplicates(),
                forall|i: int| 0 <= i < n ==> (#[trigger] start.graph[i]).len() <= cap,
                forall|i: int| 0 <= i < lists.len() ==> listed_below(#[trigger] lists[i], n),
                graph@.len() == n,
                (Grown { graph: rows(graph@), added: added as nat }) == augmented(
                    start,
                    lists,
                    l as nat,
                    cap as nat,
                ),
            decreases total - l,
        {
            let ghost list = lists[l as int];
            let ghost before = augmented(start, lists, l as nat, cap as nat);
            proof {
                lemma_augmented(start, lists, l as nat, cap as nat);
                assert(listed_below(list, n));
                assert(hits_of@[l as int]@ == list);
            }
            let count: usize = hits_of[l].len();
            let mut i: usize = 0;
            while i < count
                invariant
                    i <= count,
                    l < total,
                    hits_of@.len() == total,
                    count == list.len(),
                    list == hits_of@[l as int]@,
                    listed_below(list, n),
                    n == start.graph.len(),
                    n * at_most(cap as int, n as int) <= usize::MAX,
                        forall|i: int| 0 <= i < n ==> (#[trigger] start.graph[i]).no_duplicates(),
                    start.added == 0,
                    forall|i: int| 0 <= i < n ==> (#[trigger] start.graph[i]).len() <= cap,
                    extends(start, before, cap as nat),
                    is_graph(before.graph, n),
                    graph@.len() == n,
                    (Grown { graph: rows(graph@), added: added as nat }) == paired_all(
                        before,
                        list,
                        i as nat,
                        cap as nat,
                    ),
                decreases count - i,
            {
                let ghost here = paired_all(before, list, i as nat, cap as nat);
                proof {
                    lemma_paired_all(start, before, list, i as nat, cap as nat);
                }
                let mut j: usize = i + 1;
                while j < count
                    invariant
                        i < j <= count,
                        l < total,
                        hits_of@.len() == total,
                        count == list.len(),
                        list == hits_of@[l as int]@,
                        listed_below(list, n),
                        n == start.graph.len(),
                        n * at_most(cap as int, n as int) <= usize::MAX,
                        forall|i: int| 0 <= i < n ==> (#[trigger] start.graph[i]).no_duplicates(),
                        start.added == 0,
                        forall|i: int| 0 <= i < n ==> (#[trigger] start.graph[i]).len() <= cap,
                        extends(start, here, cap as nat),
                        is_graph(here.graph, n),
                        graph@.len() == n,
                        (Grown { graph: rows(graph@), added: added as nat }) == paired_row(
                            here,
                            list,
                            i as nat,
                            j as nat,
                            cap as nat,
                        ),
                    decreases count - j,
                {
                    let a: u32 = hits_of[l][i];
                    let b: u32 = hits_of[l][j];
                    let ghost g0 = paired_row(here, list, i as nat, j as nat, cap as nat);
                    let ghost g1 = offered(g0, a, b, cap as nat);
                    let ghost g2 = offered(g1, b, a, cap as nat);
                    proof {
                        assert(list[i as int] < n && list[j as int] < n);
                        lemma_paired_row(start, here, list, i as nat, j as nat, cap as nat);
                        lemma_offered(start, g0, a, b, cap as nat);
                        lemma_offered(start, g1, b, a, cap as nat);
                        lemma_cells_capped(start, g1, cap as nat);
                        lemma_cells_capped(start, g2, cap as nat);
                    }
                    if offer(&mut graph, a, b, cap, Ghost(added as nat)) {
                        added += 1;
                    }
                    if offer(&mut graph, b, a, cap, Ghost(added as nat)) {
                        added += 1;
                    }
                    j += 1;
                }
                i += 1;
            }
            l += 1;
        }
        proof {
            lemma_augmented(start, lists, lists.len(), cap as nat);
            lemma_entry_nodes(lists, given@, n_entry as nat, n);
        }
        let entry_points = choose_entries(hits_of.as_slice(), given, n_entry);
        let inner = KnnGraphIndex::from_parts(kept, graph, entry_points, ef, metric);
        RoarGraphIndex { inner, aug_edges_added: added }
    }

    /// The number of edges that were added.
    pub fn aug_edges(&self) -> (r: usize)
        ensures
            r == self.added(),
    {
        self.aug_edges_added
    }
}

/// The lesser of two numbers.
pub open spec fn at_most(a: int, b: int) -> int {
    if a <= b {
        a
    } else {
        b
    }
}

/// Lists within the cap that hold no node twice have no more cells than fit.
proof fn lemma_cells_capped(base: Grown, g: Grown, cap: nat)
    requires
        extends(base, g, cap),
        base.added == 0,
        is_graph(g.graph, base.graph.len()),
        forall|i: int| 0 <= i < base.graph.len() ==> (#[trigger] base.graph[i]).len() <= cap,
        forall|i: int| 0 <= i < base.graph.len() ==> (#[trigger] base.graph[i]).no_duplicates(),
    ensures
        g.added <= base.graph.len() * at_most(cap as int, base.graph.len() as int),
{
    let n = base.graph.len();
    let each = at_most(cap as int, n as int) as nat;
    assert forall|i: int| 0 <= i < g.graph.len() implies (#[trigger] g.graph[i]).len() <= each by {
        assert(base.graph[i].len() <= cap);
        assert(base.graph[i].no_duplicates());
        let list = g.graph[i];
        assert(listed_below(list, n));
        list.unique_seq_to_set();
        assert forall|x: u32| list.to_set().contains(x) implies x < n by {
            let y = choose|y: int| 0 <= y < list.len() && list[y] == x;
            assert(list[y] < n);
        }
        lemma_below_len(list.to_set(), n);
    }
    lemma_cells_at_most(g.graph, each);
}

proof fn lemma_cells_at_most(table: Seq<Seq<u32>>, cap: nat)
    requires
        forall|i: int| 0 <= i < table.len() ==> (#[trigger] table[i]).len() <= cap,
    ensures
        cells(table) <= table.len() * cap,
    decreases table.len(),
{
    if table.len() > 0 {
        let t = table.drop_last();
        assert forall|i: int| 0 <= i < t.len() implies (#[trigger] t[i]).len() <= cap by {
            assert(t[i] == table[i]);
        }
        lemma_cells_at_most(t, cap);
        assert(table[table.len() - 1].len() <= cap);
        assert((table.len() - 1) * cap + cap == table.len() * cap) by (nonlinear_arith);
    }
}

/// Chooses the entry points for a workload.
fn choose_entries(lists: &[Vec<u32>], given: Vec<u32>, most: usize) -> (r: Vec<u32>)
    ensures
        r@ == entry_nodes(rows(lists@), given@, most as nat),
{
    let n: usize = lists.len();
    let ghost all = rows(lists@);
    if n == 0 {
        return given;
    }
    let mut tops: Vec<u32> = Vec::new();
    let mut i: usize = 0;
    while i < n
        invariant
            i <= n,
            n == lists@.len(),
            all == rows(lists@),
            tops@ == landings(all, i as nat),
        decreases n - i,
    {
        assert(all[i as int] == lists@[i as int]@);
        if lists[i].len() > 0 {
            tops.push(lists[i][0]);
        }
        i += 1;
    }
    let different = keep_distinct_ids(tops.as_slice());
    let ghost keyed = by_frequency(tops@);
    let count: usize = different.len();
    let mut pairs: Vec<(u64, u32)> = Vec::new();
    let mut j: usize = 0;
    while j < count
        invariant
            j <= count,
            count == different@.len(),
            different@ == distinct(tops@),
            keyed == by_frequency(tops@),
            pairs@ =~= keyed.take(j as int),
        decreases count - j,
    {
        let id: u32 = different[j];
        let often: usize = count_of(tops.as_slice(), id);
        pairs.push((u64::MAX - often as u64, id));
        j += 1;
    }
    assert(keyed.take(count as int) =~= keyed);
    let top = select_top_k(pairs.as_slice(), most);
    let frequent = take_payloads(top.as_slice());
    let mut r = take_payloads(top.as_slice());
    let total: usize = given.len();
    let mut x: usize = 0;
    while x < total
        invariant
            x <= total,
            total == given@.len(),
            r@ == padded(frequent@, given@, x as nat, most as nat),
        decreases total - x,
    {
        if r.len() < most && !holds(r.as_slice(), given[x]) {
            r.push(given[x]);
        }
        x += 1;
    }
    if r.len() == 0 {
        given
    } else {
        r
    }
}

impl<T: Copy, D: Distance<T> + Copy> AnnIndex<T> for RoarGraphIndex<T, D> {
    open spec fn ready(&self) -> bool {
        self.wf()
    }

    open spec fn found(&self, query: Seq<T>, k: nat) -> Seq<Hit> {
        self.walked().found(query, k)
    }

    open spec fn held(&self) -> nat {
        self.walked().held()
    }

    open spec fn label(&self) -> Seq<char> {
        "RoarGraphIndex"@
    }

    fn search(&self, query: &[T], k: usize) -> (r: Vec<Hit>) {
        self.inner.search(query, k)
    }

    fn memory_bytes(&self) -> (r: usize) {
        self.inner.memory_bytes()
    }

    fn name(&self) -> (r: &'static str) {
        "RoarGraphIndex"
    }
}

} // verus!
