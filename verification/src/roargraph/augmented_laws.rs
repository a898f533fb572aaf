//! What the edges of a workload sample add to a graph.

use vstd::prelude::*;

use crate::beam::listed_below;
use crate::metric::Distance;
use crate::roargraph::augmented::{
    augmented, extends, lemma_augmented, offered, paired_all, paired_row, workload_lists, Grown,
};
use crate::roargraph::baseline::below;
use crate::roargraph::knn::{knn_graph, lemma_knn_graph, neighbours_of};
use crate::roargraph::{hit_ids, lemma_top_hits, lemma_top_hits_distinct, top_hits, Hit};

verus! {

/// Two different nodes are in one of the first `n` lists.
pub open spec fn shares(lists: Seq<Seq<u32>>, n: nat, a: u32, b: u32) -> bool {
    a != b && exists|i: int|
        0 <= i < n && (#[trigger] lists[i]).contains(a) && lists[i].contains(b)
}

/// `b` is a neighbour of `a`, or there is no room for it.
pub open spec fn served(g: Grown, a: u32, b: u32, cap: nat) -> bool {
    g.graph[a as int].contains(b) || g.graph[a as int].len() >= cap
}

/// No neighbour is lost, and no list becomes shorter.
spec fn keeps(g: Grown, h: Grown) -> bool {
    &&& h.graph.len() == g.graph.len()
    &&& forall|a: u32|
        a < g.graph.len() ==> (#[trigger] h.graph[a as int]).len() >= g.graph[a as int].len()
    &&& forall|a: u32, b: u32|
        a < g.graph.len() && g.graph[a as int].contains(b) ==> #[trigger] h.graph[a as int].contains(
            b,
        )
}

/// Every new neighbour comes from a list.
spec fn adds_from(g: Grown, h: Grown, list: Seq<u32>) -> bool {
    forall|a: u32, b: u32|
        a < g.graph.len() && #[trigger] h.graph[a as int].contains(b) ==> g.graph[a as int].contains(
            b,
        ) || (a != b && list.contains(a) && list.contains(b))
}

proof fn lemma_offer(g: Grown, a: u32, b: u32, cap: nat, list: Seq<u32>)
    requires
        a < g.graph.len(),
        a != b,
        list.contains(a),
        list.contains(b),
    ensures
        keeps(g, offered(g, a, b, cap)),
        adds_from(g, offered(g, a, b, cap), list),
        served(offered(g, a, b, cap), a, b, cap),
{
    let h = offered(g, a, b, cap);
    let now = g.graph[a as int];
    if now.len() < cap && !now.contains(b) {
        let longer = now.push(b);
        assert(longer[now.len() as int] == b);
        assert forall|x: u32, y: u32| x < g.graph.len() && g.graph[x as int].contains(y) implies #[trigger] h.graph[x as int].contains(
        y) by {
            if x == a {
                let i = choose|i: int| 0 <= i < now.len() && now[i] == y;
                assert(longer[i] == y);
            }
        }
        assert forall|x: u32, y: u32|
            x < g.graph.len() && #[trigger] h.graph[x as int].contains(y) implies g.graph[x as int].contains(
        y) || (x != y && list.contains(x) && list.contains(y)) by {
            if x == a {
                let i = choose|i: int| 0 <= i < longer.len() && longer[i] == y;
                if i < now.len() {
                    assert(now[i] == y);
                }
            }
        }
    }
}

proof fn lemma_keeps_served(g: Grown, h: Grown, a: u32, b: u32, cap: nat)
    requires
        keeps(g, h),
        a < g.graph.len(),
        served(g, a, b, cap),
    ensures
        served(h, a, b, cap),
{
    assert(h.graph[a as int].len() >= g.graph[a as int].len());
}

proof fn lemma_keeps_trans(f: Grown, g: Grown, h: Grown, list: Seq<u32>)
    requires
        keeps(f, g),
        keeps(g, h),
        adds_from(f, g, list),
        adds_from(g, h, list),
    ensures
        keeps(f, h),
        adds_from(f, h, list),
{
    assert forall|a: u32| a < f.graph.len() implies (#[trigger] h.graph[a as int]).len()
        >= f.graph[a as int].len() by {
        assert(g.graph[a as int].len() >= f.graph[a as int].len());
    }
    assert forall|a: u32, b: u32| a < f.graph.len() && f.graph[a as int].contains(b) implies #[trigger] h.graph[a as int].contains(
    b) by {
        assert(g.graph[a as int].contains(b));
    }
    assert forall|a: u32, b: u32|
        a < f.graph.len() && #[trigger] h.graph[a as int].contains(b) implies f.graph[a as int].contains(
    b) || (a != b && list.contains(a) && list.contains(b)) by {
        if g.graph[a as int].contains(b) {
        }
    }
}

/// What pairing one entry of a list with those behind it does.
proof fn lemma_row(g: Grown, list: Seq<u32>, i: nat, j: nat, cap: nat)
    requires
        listed_below(list, g.graph.len()),
        list.no_duplicates(),
        i < list.len(),
        j <= list.len(),
    ensures
        keeps(g, paired_row(g, list, i, j, cap)),
        adds_from(g, paired_row(g, list, i, j, cap), list),
        forall|p: int|
            i < p < j ==> served(
                paired_row(g, list, i, j, cap),
                list[i as int],
                #[trigger] list[p],
                cap,
            ) && served(paired_row(g, list, i, j, cap), list[p], list[i as int], cap),
    decreases j,
{
    if j > i + 1 {
        let m = (j - 1) as nat;
        lemma_row(g, list, i, m, cap);
        let h = paired_row(g, list, i, m, cap);
        let a = list[i as int];
        let b = list[m as int];
        assert(list.contains(a) && list.contains(b) && a != b);
        assert(a < g.graph.len() && b < g.graph.len());
        lemma_offer(h, a, b, cap, list);
        let one = offered(h, a, b, cap);
        lemma_offer(one, b, a, cap, list);
        let two = offered(one, b, a, cap);
        lemma_keeps_served(one, two, a, b, cap);
        lemma_keeps_trans(h, one, two, list);
        lemma_keeps_trans(g, h, two, list);
        assert(paired_row(g, list, i, j, cap) == two);
        assert forall|p: int| i < p < j implies served(two, a, #[trigger] list[p], cap) && served(
            two,
            list[p],
            a,
            cap,
        ) by {
            assert(list[p] < g.graph.len());
            if p < m {
                lemma_keeps_served(h, two, a, list[p], cap);
                lemma_keeps_served(h, two, list[p], a, cap);
            }
        }
    }
}

/// What pairing the first entries of a list with those behind them does.
proof fn lemma_rows(g: Grown, list: Seq<u32>, i: nat, cap: nat)
    requires
        listed_below(list, g.graph.len()),
        list.no_duplicates(),
        i <= list.len(),
    ensures
        keeps(g, paired_all(g, list, i, cap)),
        adds_from(g, paired_all(g, list, i, cap), list),
        forall|u: int, p: int|
            0 <= u < i && u < p < list.len() ==> served(
                paired_all(g, list, i, cap),
                #[trigger] list[u],
                #[trigger] list[p],
                cap,
            ) && served(paired_all(g, list, i, cap), list[p], list[u], cap),
    decreases i,
{
    if i > 0 {
        let m = (i - 1) as nat;
        lemma_rows(g, list, m, cap);
        let h = paired_all(g, list, m, cap);
        lemma_row(h, list, m, list.len(), cap);
        let k = paired_row(h, list, m, list.len(), cap);
        lemma_keeps_trans(g, h, k, list);
        assert forall|u: int, p: int| 0 <= u < i && u < p < list.len() implies served(
            k,
            #[trigger] list[u],
            #[trigger] list[p],
            cap,
        ) && served(k, list[p], list[u], cap) by {
            assert(list[u] < g.graph.len() && list[p] < g.graph.len());
            if u < m {
                lemma_keeps_served(h, k, list[u], list[p], cap);
                lemma_keeps_served(h, k, list[p], list[u], cap);
            }
        }
    }
}

/// Every neighbour that the lists of a workload add to a node is in a list with it,
/// and every node that is in a list with it is a neighbour, unless there is no
/// room. No node becomes its own neighbour.
pub proof fn lemma_augmented_shares(
    base: Grown,
    lists: Seq<Seq<u32>>,
    n: nat,
    cap: nat,
    a: u32,
    b: u32,
)
    requires
        n <= lists.len(),
        forall|i: int|
            0 <= i < lists.len() ==> listed_below(#[trigger] lists[i], base.graph.len())
                && lists[i].no_duplicates(),
        a < base.graph.len(),
    ensures
        augmented(base, lists, n, cap).graph.len() == base.graph.len(),
        augmented(base, lists, n, cap).graph[a as int].contains(b) ==> base.graph[a as int].contains(
            b,
        ) || shares(lists, n, a, b),
        shares(lists, n, a, b) ==> served(augmented(base, lists, n, cap), a, b, cap),
        base.graph[a as int].contains(b) ==> augmented(base, lists, n, cap).graph[a as int].contains(
            b,
        ),
        !base.graph[a as int].contains(a) ==> !augmented(base, lists, n, cap).graph[a as int].contains(
            a,
        ),
    decreases n,
{
    if n > 0 {
        let m = (n - 1) as nat;
        lemma_augmented_shares(base, lists, m, cap, a, b);
        lemma_augmented_shares(base, lists, m, cap, a, a);
        let h = augmented(base, lists, m, cap);
        let list = lists[m as int];
        assert(listed_below(list, base.graph.len()) && list.no_duplicates());
        lemma_rows(h, list, list.len(), cap);
        let k = paired_all(h, list, list.len(), cap);
        if k.graph[a as int].contains(b) {
            if h.graph[a as int].contains(b) {
                if shares(lists, m, a, b) {
                    let i = choose|i: int|
                        0 <= i < m && (#[trigger] lists[i]).contains(a) && lists[i].contains(b);
                    assert(0 <= i < n && lists[i].contains(a));
                }
            } else {
                assert(lists[m as int].contains(a) && lists[m as int].contains(b));
            }
        }
        if shares(lists, n, a, b) {
            let i = choose|i: int|
                0 <= i < n && (#[trigger] lists[i]).contains(a) && lists[i].contains(b);
            if i < m {
                assert(shares(lists, m, a, b));
                lemma_keeps_served(h, k, a, b, cap);
            } else {
                let u = choose|u: int| 0 <= u < list.len() && list[u] == a;
                let p = choose|p: int| 0 <= p < list.len() && list[p] == b;
                if u < p {
                    assert(served(k, list[u], list[p], cap));
                } else {
                    assert(served(k, list[p], list[u], cap));
                }
            }
        }
    }
}

/// The graph that a workload sample gives over entries numbered from zero. A node
/// keeps its nearest neighbours, holds none twice, is not its own neighbour and has
/// no more than `k_graph + k_aug`. Each further neighbour is among the best entries
/// of a workload query together with the node, and every such entry is a neighbour
/// unless the list is full.
pub proof fn lemma_workload_graph<T, D: Distance<T>>(
    metric: D,
    vectors: Seq<Seq<T>>,
    workload: Seq<Seq<T>>,
    k_graph: nat,
    k_best: nat,
    k_aug: nat,
    a: u32,
    b: u32,
)
    requires
        a < vectors.len() <= 0x1_0000_0000,
    ensures
        ({
            let numbers = below(vectors.len());
            let lists = workload_lists(metric, vectors, numbers, workload, k_best);
            let nearest = knn_graph(metric, vectors, numbers, k_graph);
            let cap = k_graph + k_aug;
            let out = augmented(Grown { graph: nearest, added: 0 }, lists, lists.len(), cap).graph;
            let list = out[a as int];
            &&& nearest[a as int].contains(b) ==> list.contains(b)
            &&& list.no_duplicates()
            &&& !list.contains(a)
            &&& list.len() <= cap
            &&& list.contains(b) ==> nearest[a as int].contains(b) || shares(
                lists,
                lists.len(),
                a,
                b,
            )
            &&& shares(lists, lists.len(), a, b) ==> list.contains(b) || list.len() == cap
        }),
{
    let n = vectors.len();
    let numbers = below(n);
    let lists = workload_lists(metric, vectors, numbers, workload, k_best);
    let nearest = knn_graph(metric, vectors, numbers, k_graph);
    let base = Grown { graph: nearest, added: 0 };
    let cap = k_graph + k_aug;
    assert(numbers.no_duplicates());
    assert forall|i: int| 0 <= i < n implies listed_below(#[trigger] nearest[i], n) by {
        lemma_knn_graph(metric, vectors, numbers, k_graph, i);
        let row = nearest[i];
        assert(row == neighbours_of(metric, vectors, numbers, k_graph, i));
        assert forall|x: int| 0 <= x < row.len() implies (#[trigger] row[x]) < n by {
            assert(numbers.contains(row[x]));
        }
    }
    assert forall|i: int| 0 <= i < lists.len() implies listed_below(#[trigger] lists[i], n)
        && lists[i].no_duplicates() by {
        lemma_top_hits(metric, workload[i], vectors, numbers, k_best);
        lemma_top_hits_distinct(metric, workload[i], vectors, numbers, k_best);
        let found = top_hits(metric, workload[i], vectors, numbers, k_best);
        assert(lists[i] == hit_ids(found));
        assert forall|x: int| 0 <= x < lists[i].len() implies (#[trigger] lists[i][x]) < n by {
            let j = choose|j: int|
                0 <= j < vectors.len() && found[x] == (Hit {
                    id: numbers[j],
                    score: metric.spec_key(workload[i], #[trigger] vectors[j]),
                });
            assert(lists[i][x] == numbers[j]);
        }
    }
    lemma_augmented(base, lists, lists.len(), cap);
    lemma_augmented_shares(base, lists, lists.len(), cap, a, b);
    lemma_knn_graph(metric, vectors, numbers, k_graph, a as int);
    let row = nearest[a as int];
    assert(row == neighbours_of(metric, vectors, numbers, k_graph, a as int));
    assert(!row.contains(a)) by {
        assert forall|x: int| 0 <= x < row.len() implies row[x] != a by {
            assert(row[x] != numbers[a as int]);
        }
    }
    let out = augmented(base, lists, lists.len(), cap);
    assert(extends(base, out, cap));
    assert(base.graph[a as int] == row);
}

} // verus!
