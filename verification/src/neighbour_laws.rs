//! The neighbours in the graphs are the nearest ones.

use vstd::prelude::*;

use crate::beam::Nodes;
use crate::idlist::{lemma_count_of, lemma_sorted_set, times_upto};
use crate::metric::Distance;
use crate::overlap::{distinct, lemma_distinct};
use crate::ranking_laws::{least_keys, lemma_least_keys, numbered};
use crate::roargraph::augmented::{by_frequency, entry_nodes, landings, padded};
use crate::roargraph::baseline::{baseline_graph, below};
use crate::roargraph::construct::{
    company, distances, lemma_company, near, projected, projection, seen_from,
};
use crate::roargraph::knn::{lemma_others, neighbours_of, others};
use crate::roargraph::{hit_ids, lemma_top_hits, top_hits, Hit};
use crate::scalar::Scalar;
use crate::search_laws::plain;
use crate::serf::data::Point;
use crate::serf::graph::knn_row;
use crate::sorting::{first_n, lemma_top_k, lemma_top_k_smallest, top_k};
use crate::spaces::{nearest, payloads, ranked};

verus! {

/// The nearest nodes of a list come by ascending rank, and no node of the list that is
/// left out has a smaller rank.
pub proof fn lemma_nearest_best(nodes: Nodes, list: Seq<u32>, k: nat)
    ensures
        ({
            let out = nearest(nodes, list, k);
            &&& forall|i: int, j: int|
                0 <= i <= j < out.len() ==> nodes.rank_of(#[trigger] out[i]) <= nodes.rank_of(
                    #[trigger] out[j],
                )
            &&& forall|i: int, x: u32|
                0 <= i < out.len() && #[trigger] list.contains(x) && !out.contains(x)
                    ==> nodes.rank_of(#[trigger] out[i]) <= nodes.rank_of(x)
        }),
{
    let all = ranked(nodes, list);
    let top = top_k(all, k);
    let out = nearest(nodes, list, k);
    lemma_top_k(all, k);
    assert forall|i: int| 0 <= i < out.len() implies top[i].0 == nodes.rank_of(
        #[trigger] out[i],
    ) by {
        assert(all.contains(top[i]));
    }
    assert forall|i: int, j: int| 0 <= i <= j < out.len() implies nodes.rank_of(#[trigger] out[i])
        <= nodes.rank_of(#[trigger] out[j]) by {
        assert(top[i].0 <= top[j].0);
    }
    assert forall|i: int, x: u32|
        0 <= i < out.len() && #[trigger] list.contains(x) && !out.contains(x) implies nodes.rank_of(
        #[trigger] out[i],
    ) <= nodes.rank_of(x) by {
        let p = choose|p: int| 0 <= p < list.len() && list[p] == x;
        let item = all[p];
        assert(all.contains(item));
        if top.contains(item) {
            let j = choose|j: int| 0 <= j < top.len() && top[j] == item;
            assert(out[j] == x);
        }
        lemma_top_k_smallest(all, k, i, item);
    }
}

/// In the baseline graph each vector is joined to the nearest other ones, the nearest
/// one first.
pub proof fn lemma_baseline_nearest<T, D: Distance<T>>(
    metric: D,
    vectors: Seq<Seq<T>>,
    max_degree: nat,
    i: int,
)
    requires
        0 <= i < vectors.len() <= 0x1_0000_0000,
    ensures
        ({
            let list = baseline_graph(metric, vectors, max_degree)[i];
            &&& forall|a: int, b: int|
                0 <= a <= b < list.len() ==> metric.spec_key(
                    vectors[i],
                    vectors[#[trigger] list[a] as int],
                ) <= metric.spec_key(vectors[i], vectors[#[trigger] list[b] as int])
            &&& forall|a: int, x: int|
                0 <= a < list.len() && 0 <= x < vectors.len() && x != i && !list.contains(x as u32)
                    ==> metric.spec_key(vectors[i], vectors[#[trigger] list[a] as int])
                    <= metric.spec_key(vectors[i], #[trigger] vectors[x])
        }),
{
    let nodes = seen_from(metric, vectors, i);
    let all = below(vectors.len());
    let rest = others(all, i as u32);
    let list = baseline_graph(metric, vectors, max_degree)[i];
    lemma_others(all, i as u32);
    lemma_nearest_best(nodes, rest, max_degree);
    assert forall|a: int, b: int| 0 <= a <= b < list.len() implies metric.spec_key(
        vectors[i],
        vectors[#[trigger] list[a] as int],
    ) <= metric.spec_key(vectors[i], vectors[#[trigger] list[b] as int]) by {
        assert(nodes.rank_of(list[a]) <= nodes.rank_of(list[b]));
    }
    assert forall|a: int, x: int|
        0 <= a < list.len() && 0 <= x < vectors.len() && x != i && !list.contains(
            x as u32,
        ) implies metric.spec_key(vectors[i], vectors[#[trigger] list[a] as int])
        <= metric.spec_key(vectors[i], #[trigger] vectors[x]) by {
        assert(all[x] == x as u32);
        assert(all.contains(x as u32));
        assert(rest.contains(x as u32));
        assert(nodes.rank_of(list[a]) <= nodes.rank_of(x as u32));
    }
}

/// The vectors near to a query are the nearest ones, the nearest one first.
pub proof fn lemma_near_query<T, D: Distance<T>>(
    metric: D,
    query: Seq<T>,
    vectors: Seq<Seq<T>>,
    k: nat,
)
    requires
        vectors.len() <= 0x1_0000_0000,
        vectors.len() <= usize::MAX,
    ensures
        least_keys(
            plain(near(metric, query, vectors, k)),
            |i: int| metric.spec_key(query, vectors[i]),
            vectors.len(),
            k,
        ),
{
    let all = distances(metric, query, vectors);
    let id = |x: u32| x as int;
    let keys = |i: int| metric.spec_key(query, vectors[i]);
    assert(numbered(all, id));
    lemma_least_keys(all, id, keys, k);
    let found = payloads(top_k(all, k));
    assert(plain(found) =~= Seq::new(found.len(), |i: int| id(found[i])));
}

/// A node that is projected has neighbours that share a list with it, and these are the
/// nearest ones of all that do.
pub proof fn lemma_projected_nearest<T, D: Distance<T>>(
    metric: D,
    vectors: Seq<Seq<T>>,
    lists: Seq<Seq<u32>>,
    max_degree: nat,
    v: u32,
    l: int,
    u: u32,
)
    requires
        v < vectors.len(),
        0 <= l < lists.len(),
        lists[l].contains(v),
        lists[l].contains(u),
        u != v,
    ensures
        ({
            let list = projected(metric, vectors, lists, max_degree)[v as int];
            &&& forall|a: int|
                0 <= a < list.len() ==> exists|i: int|
                    0 <= i < lists.len() && (#[trigger] lists[i]).contains(v) && lists[i].contains(
                        #[trigger] list[a],
                    )
            &&& list.contains(u) || forall|a: int|
                0 <= a < list.len() ==> metric.spec_key(
                    vectors[v as int],
                    vectors[#[trigger] list[a] as int],
                ) <= metric.spec_key(vectors[v as int], vectors[u as int])
        }),
{
    let nodes = seen_from(metric, vectors, v as int);
    let all = projection(lists, v);
    let list = projected(metric, vectors, lists, max_degree)[v as int];
    lemma_sorted_set(company(lists, v, lists.len()));
    lemma_company(lists, v, u, lists.len());
    crate::spaces::lemma_nearest(nodes, all, max_degree);
    lemma_nearest_best(nodes, all, max_degree);
    assert(all.contains(u));
    assert forall|a: int| 0 <= a < list.len() implies exists|i: int|
        0 <= i < lists.len() && (#[trigger] lists[i]).contains(v) && lists[i].contains(
            #[trigger] list[a],
        ) by {
        assert(all.contains(list[a]));
        lemma_company(lists, v, list[a], lists.len());
    }
    if !list.contains(u) {
        assert forall|a: int| 0 <= a < list.len() implies metric.spec_key(
            vectors[v as int],
            vectors[#[trigger] list[a] as int],
        ) <= metric.spec_key(vectors[v as int], vectors[u as int]) by {
            assert(nodes.rank_of(list[a]) <= nodes.rank_of(u));
        }
    }
}

/// The neighbours of a point are the nearest other points, the nearest one first.
pub proof fn lemma_knn_row_nearest<R: Scalar>(points: Seq<Point<R>>, i: int, k: nat)
    requires
        0 <= i < points.len() <= 0x1_0000_0000,
    ensures
        ({
            let list = knn_row(points, i, k);
            let p = points[i].vec@;
            &&& forall|a: int, b: int|
                0 <= a <= b < list.len() ==> crate::serf::data::sq_l2_of(
                    p,
                    points[#[trigger] list[a] as int].vec@,
                ).key_of() <= crate::serf::data::sq_l2_of(
                    p,
                    points[#[trigger] list[b] as int].vec@,
                ).key_of()
            &&& forall|a: int, x: int|
                0 <= a < list.len() && 0 <= x < points.len() && x != i && !list.contains(x as u32)
                    ==> crate::serf::data::sq_l2_of(
                    p,
                    points[#[trigger] list[a] as int].vec@,
                ).key_of() <= crate::serf::data::sq_l2_of(
                    p,
                    (#[trigger] points[x]).vec@,
                ).key_of()
        }),
{
    let nodes = crate::serf::graph::outward(points, i);
    let all = crate::serf::graph::others(points.len(), i);
    let list = knn_row(points, i, k);
    let p = points[i].vec@;
    lemma_nearest_best(nodes, all, k);
    assert forall|a: int, b: int| 0 <= a <= b < list.len() implies crate::serf::data::sq_l2_of(
        p,
        points[#[trigger] list[a] as int].vec@,
    ).key_of() <= crate::serf::data::sq_l2_of(
        p,
        points[#[trigger] list[b] as int].vec@,
    ).key_of() by {
        assert(nodes.rank_of(list[a]) <= nodes.rank_of(list[b]));
    }
    assert forall|a: int, x: int|
        0 <= a < list.len() && 0 <= x < points.len() && x != i && !list.contains(
            x as u32,
        ) implies crate::serf::data::sq_l2_of(
        p,
        points[#[trigger] list[a] as int].vec@,
    ).key_of() <= crate::serf::data::sq_l2_of(p, (#[trigger] points[x]).vec@).key_of() by {
        let at = if x < i {
            x
        } else {
            x - 1
        };
        assert(all[at] == x as u32);
        assert(all.contains(x as u32));
        assert(nodes.rank_of(list[a]) <= nodes.rank_of(x as u32));
    }
}

/// A list comes by descending score.
spec fn descending(list: Seq<u32>, score: spec_fn(u32) -> u64) -> bool {
    forall|a: int, b: int|
        0 <= a <= b < list.len() ==> score(#[trigger] list[a]) >= score(#[trigger] list[b])
}

proof fn lemma_others_descending(list: Seq<u32>, id: u32, score: spec_fn(u32) -> u64)
    requires
        descending(list, score),
    ensures
        descending(others(list, id), score),
    decreases list.len(),
{
    if list.len() > 0 {
        let t = list.drop_last();
        assert forall|a: int, b: int| 0 <= a <= b < t.len() implies score(#[trigger] t[a]) >= score(
            #[trigger] t[b],
        ) by {
            assert(t[a] == list[a] && t[b] == list[b]);
        }
        lemma_others_descending(t, id, score);
        lemma_others(t, id);
        let rest = others(t, id);
        let now = others(list, id);
        assert forall|a: int, b: int| 0 <= a <= b < now.len() implies score(#[trigger] now[a])
            >= score(#[trigger] now[b]) by {
            if b < rest.len() {
                assert(now[a] == rest[a] && now[b] == rest[b]);
            } else if a < rest.len() {
                assert(now[a] == rest[a]);
                assert(t.contains(rest[a]));
                let x = choose|x: int| 0 <= x < t.len() && t[x] == rest[a];
                assert(list[x] == rest[a] && list[list.len() - 1] == now[b]);
            }
        }
    }
}

/// In the graph of nearest neighbours over entries that are numbered from zero, no other
/// entry that is left out has a greater score than a neighbour.
pub proof fn lemma_knn_nearest<T, D: Distance<T>>(
    metric: D,
    vectors: Seq<Seq<T>>,
    k: nat,
    i: int,
)
    requires
        0 <= i < vectors.len() <= 0x1_0000_0000,
    ensures
        ({
            let list = neighbours_of(metric, vectors, below(vectors.len()), k, i);
            forall|a: int, x: int|
                0 <= a < list.len() && 0 <= x < vectors.len() && x != i && !list.contains(x as u32)
                    ==> metric.spec_key(vectors[i], vectors[#[trigger] list[a] as int])
                    >= metric.spec_key(vectors[i], #[trigger] vectors[x])
        }),
{
    let n = vectors.len();
    let numbers = below(n);
    let q = vectors[i];
    let score = |x: u32| metric.spec_key(q, vectors[x as int]);
    let hits = top_hits(metric, q, vectors, numbers, k + 1);
    let ids = hit_ids(hits);
    let rest = others(ids, numbers[i]);
    let few = first_n(rest, k);
    let list = neighbours_of(metric, vectors, numbers, k, i);
    lemma_top_hits(metric, q, vectors, numbers, k + 1);
    lemma_others(ids, numbers[i]);
    lemma_sorted_set(few);
    assert(numbers[i] == i as u32);
    assert forall|a: int| 0 <= a < hits.len() implies (#[trigger] hits[a]).score == score(
        hits[a].id,
    ) && hits[a].id < n by {
        let j = choose|j: int|
            0 <= j < vectors.len() && hits[a] == (Hit {
                id: numbers[j],
                score: metric.spec_key(q, #[trigger] vectors[j]),
            });
        assert(numbers[j] == j as u32);
    }
    assert(descending(ids, score)) by {
        assert forall|a: int, b: int| 0 <= a <= b < ids.len() implies score(#[trigger] ids[a])
            >= score(#[trigger] ids[b]) by {
            assert(hits[a].score >= hits[b].score);
        }
    }
    lemma_others_descending(ids, numbers[i], score);
    assert forall|a: int, x: int|
        0 <= a < list.len() && 0 <= x < n && x != i && !list.contains(
            x as u32,
        ) implies metric.spec_key(q, vectors[#[trigger] list[a] as int]) >= metric.spec_key(
        q,
        #[trigger] vectors[x],
    ) by {
        let y = list[a];
        assert(list.contains(y));
        assert(few.contains(y));
        let b = choose|b: int| 0 <= b < few.len() && few[b] == y;
        assert(rest[b] == y);
        assert(rest.contains(y));
        assert(ids.contains(y));
        let c = choose|c: int| 0 <= c < ids.len() && ids[c] == y;
        assert(hits[c].score == score(y));
        let own = Hit { id: numbers[x], score: metric.spec_key(q, vectors[x]) };
        assert(numbers[x] == x as u32);
        if hits.contains(own) {
            let d = choose|d: int| 0 <= d < hits.len() && hits[d] == own;
            assert(ids[d] == x as u32);
            assert(ids.contains(x as u32));
            assert(rest.contains(x as u32));
            let e = choose|e: int| 0 <= e < rest.len() && rest[e] == x as u32;
            if e < few.len() {
                assert(few[e] == x as u32);
                assert(few.contains(x as u32));
            }
            assert(score(rest[b]) >= score(rest[e]));
        }
    }
}

/// The occurrences of a number.
pub open spec fn occurrences(list: Seq<u32>, x: u32) -> nat {
    list.to_multiset().count(x)
}

proof fn lemma_padded_start(list: Seq<u32>, more: Seq<u32>, n: nat, most: nat)
    requires
        n <= more.len(),
    ensures
        padded(list, more, n, most).len() >= list.len(),
        padded(list, more, n, most).take(list.len() as int) == list,
    decreases n,
{
    if n == 0 {
        assert(list.take(list.len() as int) =~= list);
    } else {
        lemma_padded_start(list, more, (n - 1) as nat, most);
        let rest = padded(list, more, (n - 1) as nat, most);
        assert(padded(list, more, n, most).take(list.len() as int) =~= rest.take(
            list.len() as int,
        ));
    }
}

/// The entry points for a workload begin with the entries that its queries land on most
/// often, the most frequent one first: as many as were asked for, or all.
pub proof fn lemma_entry_nodes(lists: Seq<Seq<u32>>, given: Seq<u32>, most: nat)
    requires
        most > 0,
        0 < landings(lists, lists.len()).len() <= u64::MAX,
    ensures
        ({
            let lands = landings(lists, lists.len());
            let out = entry_nodes(lists, given, most);
            let n = if most <= distinct(lands).len() {
                most
            } else {
                distinct(lands).len()
            };
            &&& out.len() >= n
            &&& forall|i: int, j: int|
                0 <= i <= j < n ==> occurrences(lands, #[trigger] out[i]) >= occurrences(
                    lands,
                    #[trigger] out[j],
                )
            &&& forall|i: int, x: u32|
                0 <= i < n && #[trigger] lands.contains(x) && !out.contains(x) ==> occurrences(
                    lands,
                    #[trigger] out[i],
                ) >= occurrences(lands, x)
        }),
{
    let lands = landings(lists, lists.len());
    let all = by_frequency(lands);
    let top = top_k(all, most);
    let frequent = payloads(top);
    let out = entry_nodes(lists, given, most);
    lemma_top_k(all, most);
    lemma_distinct(lands);
    lemma_padded_start(frequent, given, given.len(), most);
    assert(lands.take(lands.len() as int) =~= lands);
    assert forall|x: u32| #[trigger] times_upto(lands, x, lands.len()) == occurrences(
        lands,
        x,
    ) by {
        lemma_count_of(lands, x, lands.len());
    }
    lemma_no_lists(lists);
    let full = padded(frequent, given, given.len(), most);
    assert(out == full);
    assert forall|i: int| 0 <= i < frequent.len() implies out[i] == #[trigger] frequent[i]
        && top[i].0 == u64::MAX - occurrences(lands, frequent[i]) by {
        assert(full.take(frequent.len() as int)[i] == full[i]);
        assert(all.contains(top[i]));
        lemma_few(lands, frequent[i], lands.len());
        assert(times_upto(lands, frequent[i], lands.len()) == occurrences(lands, frequent[i]));
    }
    assert forall|i: int, j: int| 0 <= i <= j < frequent.len() implies occurrences(
        lands,
        #[trigger] out[i],
    ) >= occurrences(lands, #[trigger] out[j]) by {
        assert(frequent[i] == out[i] && frequent[j] == out[j]);
        assert(top[i].0 <= top[j].0);
        lemma_few(lands, frequent[i], lands.len());
        lemma_few(lands, frequent[j], lands.len());
    }
    assert forall|i: int, x: u32|
        0 <= i < frequent.len() && #[trigger] lands.contains(x) && !out.contains(
            x,
        ) implies occurrences(lands, #[trigger] out[i]) >= occurrences(lands, x) by {
        let d = distinct(lands);
        assert(d.contains(x));
        let p = choose|p: int| 0 <= p < d.len() && d[p] == x;
        let item = all[p];
        assert(all.contains(item));
        if top.contains(item) {
            let j = choose|j: int| 0 <= j < top.len() && top[j] == item;
            assert(frequent[j] == x);
            assert(out[j] == x);
        }
        lemma_top_k_smallest(all, most, i, item);
        assert(frequent[i] == out[i]);
        lemma_few(lands, x, lands.len());
        lemma_few(lands, frequent[i], lands.len());
        assert(times_upto(lands, x, lands.len()) == occurrences(lands, x));
    }
}

proof fn lemma_few(list: Seq<u32>, x: u32, n: nat)
    ensures
        times_upto(list, x, n) <= n,
    decreases n,
{
    if n > 0 {
        lemma_few(list, x, (n - 1) as nat);
    }
}

proof fn lemma_no_lists(lists: Seq<Seq<u32>>)
    ensures
        lists.len() == 0 ==> landings(lists, lists.len()).len() == 0,
{
}

} // verus!
