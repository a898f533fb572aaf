//! Probing every list is exact.

use vstd::prelude::*;

use crate::cluster::{lemma_nearest_centre, nearest_centre};
use crate::linalg::sq_l2_of;
use crate::overlap::{distinct, lemma_distinct};
use crate::scalar::Scalar;
use crate::soar_ivf::ivf_common::{
    exact_hits, gathered, keyed_hits, lemma_gathered_below, lemma_ranking, lemma_scanned,
    postings_below, probed, ranking, scanned, with_distances,
};
use crate::soar_ivf::ivf_single::single_targets;
use crate::soar_ivf::ivf_soar::{lemma_soar_picks, soar_targets};
use crate::soar_ivf::ivf_spill_topk::{lesser, spill_targets, spread};
use crate::soar_ivf::metrics::Hit;
use crate::soar_ivf::postings::{
    filled, lemma_filled, posted_all, targets_below, Filled,
};
use crate::sorting::{first_n, lemma_stable_sort, lemma_top_k, lemma_top_k_smallest, stable_sort, top_k};

verus! {

/// Some list holds `id`.
pub open spec fn covered(lists: Seq<Seq<usize>>, id: usize) -> bool {
    exists|c: int| 0 <= c < lists.len() && (#[trigger] lists[c]).contains(id)
}

/// Each vector is posted at least once, and to centroids that exist.
pub open spec fn posts_each<R>(to: Seq<Seq<(usize, R)>>, n_centroids: nat) -> bool {
    forall|i: int|
        0 <= i < to.len() ==> (#[trigger] to[i]).len() > 0 && targets_below(to[i], n_centroids)
}

proof fn lemma_posted_all_covers<R>(f: Filled<R>, id: usize, to: Seq<(usize, R)>, other: usize)
    requires
        targets_below(to, f.lists.len()),
        covered(f.lists, other) || (other == id && to.len() > 0),
    ensures
        posted_all(f, id, to).lists.len() == f.lists.len(),
        covered(posted_all(f, id, to).lists, other),
    decreases to.len(),
{
    if to.len() > 0 {
        let t = to.drop_last();
        assert forall|i: int| 0 <= i < t.len() implies (#[trigger] t[i]).0 < f.lists.len() by {
            assert(t[i] == to[i]);
        }
        assert(to[to.len() - 1].0 < f.lists.len());
        lemma_posted_len(f, id, t);
        let g = posted_all(f, id, t);
        let h = posted_all(f, id, to);
        let at = to.last().0 as int;
        if covered(f.lists, other) || t.len() > 0 {
            lemma_posted_all_covers(f, id, t, other);
            let c = choose|c: int| 0 <= c < g.lists.len() && (#[trigger] g.lists[c]).contains(other);
            if c == at {
                let i = choose|i: int| 0 <= i < g.lists[c].len() && g.lists[c][i] == other;
                assert(h.lists[c][i] == other);
            }
            assert(h.lists[c].contains(other));
        } else {
            assert(h.lists[at][g.lists[at].len() as int] == id);
            assert(h.lists[at].contains(other));
        }
    }
}

proof fn lemma_posted_len<R>(f: Filled<R>, id: usize, to: Seq<(usize, R)>)
    requires
        targets_below(to, f.lists.len()),
    ensures
        posted_all(f, id, to).lists.len() == f.lists.len(),
    decreases to.len(),
{
    if to.len() > 0 {
        let t = to.drop_last();
        assert forall|i: int| 0 <= i < t.len() implies (#[trigger] t[i]).0 < f.lists.len() by {
            assert(t[i] == to[i]);
        }
        lemma_posted_len(f, id, t);
        assert(to[to.len() - 1].0 < f.lists.len());
    }
}

/// Every vector that is posted is in some list.
pub proof fn lemma_filled_covers<R>(n_centroids: nat, to: Seq<Seq<(usize, R)>>, n: nat, id: usize)
    requires
        id < n <= to.len() <= usize::MAX,
        posts_each(to, n_centroids),
    ensures
        covered(filled(n_centroids, to, n).lists, id),
    decreases n,
{
    let m = (n - 1) as nat;
    lemma_filled(n_centroids, to, m);
    if id < m {
        lemma_filled_covers(n_centroids, to, m, id);
    }
    assert(to[m as int].len() > 0 && targets_below(to[m as int], n_centroids));
    lemma_posted_all_covers(filled(n_centroids, to, m), m as usize, to[m as int], id);
}

proof fn lemma_gathered_holds(lists: Seq<Seq<usize>>, order: Seq<usize>, n: nat, j: int, id: usize)
    requires
        0 <= j < n <= order.len(),
        lists[order[j] as int].contains(id),
    ensures
        gathered(lists, order, n).contains(id),
    decreases n,
{
    let rest = gathered(lists, order, (n - 1) as nat);
    let list = lists[order[n - 1] as int];
    let all = gathered(lists, order, n);
    if j < n - 1 {
        lemma_gathered_holds(lists, order, (n - 1) as nat, j, id);
        let i = choose|i: int| 0 <= i < rest.len() && rest[i] == id;
        assert(all[i] == id);
    } else {
        let i = choose|i: int| 0 <= i < list.len() && list[i] == id;
        assert(all[rest.len() + i] == id);
    }
}

proof fn lemma_all_ids(ids: Seq<usize>, n: nat)
    requires
        ids.no_duplicates(),
        n <= usize::MAX,
        forall|id: usize| #[trigger] ids.contains(id) <==> id < n,
    ensures
        ids.len() == n,
{
    let below = Seq::new(n, |i: int| i as usize);
    assert(below.no_duplicates());
    ids.unique_seq_to_set();
    below.unique_seq_to_set();
    assert(ids.to_set() =~= below.to_set()) by {
        assert forall|id: usize| ids.to_set().contains(id) <==> below.to_set().contains(id) by {
            if id < n {
                assert(below[id as int] == id);
                assert(below.contains(id));
                assert(ids.contains(id));
            }
            if below.contains(id) {
                let i = choose|i: int| 0 <= i < below.len() && below[i] == id;
                assert(ids.contains(id));
            }
        }
    }
}

/// A search that probes every list is exact where every vector is in some list.
/// It returns `k` hits, or all vectors where there are fewer, by ascending
/// distance, each vector once and under its own distance, and no vector that is
/// left out is nearer than one of them.
pub proof fn lemma_scanned_exact<R: Scalar>(
    query: Seq<R>,
    k: nat,
    n_probe: nat,
    centroids: Seq<Seq<R>>,
    lists: Seq<Seq<usize>>,
    vectors: Seq<Seq<R>>,
)
    requires
        n_probe >= centroids.len(),
        centroids.len() == lists.len(),
        centroids.len() <= usize::MAX,
        vectors.len() <= usize::MAX,
        postings_below(lists, vectors.len()),
        forall|id: usize| id < vectors.len() ==> covered(lists, id),
    ensures
        ({
            let r = scanned(query, k, n_probe, centroids, lists, vectors);
            &&& r.len() == lesser(k, vectors.len())
            &&& forall|i: int, j: int|
                0 <= i <= j < r.len() ==> (#[trigger] r[i]).dist.key_of() <= (
                #[trigger] r[j]).dist.key_of()
            &&& forall|i: int, j: int|
                0 <= i < j < r.len() ==> (#[trigger] r[i]).id != (#[trigger] r[j]).id
            &&& forall|i: int|
                0 <= i < r.len() ==> {
                    &&& (#[trigger] r[i]).id < vectors.len()
                    &&& r[i].dist == sq_l2_of(query, vectors[r[i].id as int])
                }
            &&& forall|i: int, id: usize|
                0 <= i < r.len() && id < vectors.len() && !r.contains(
                    Hit { id, dist: #[trigger] sq_l2_of(query, vectors[id as int]) },
                ) ==> (#[trigger] r[i]).dist.key_of() <= sq_l2_of(
                    query,
                    vectors[id as int],
                ).key_of()
        }),
{
    let n = vectors.len();
    let order = probed(query, centroids, n_probe);
    let all = gathered(lists, order, order.len());
    let ids = distinct(all);
    let found = exact_hits(query, vectors, ids);
    let keyed = keyed_hits(found);
    let r = scanned(query, k, n_probe, centroids, lists, vectors);
    let top = top_k(keyed, k);
    lemma_ranking(query, centroids);
    assert(order =~= ranking(query, centroids));
    lemma_gathered_below(lists, order, order.len(), n);
    lemma_distinct(all);
    assert forall|id: usize| #[trigger] ids.contains(id) <==> id < n by {
        if id < n {
            assert(covered(lists, id));
            let c = choose|c: int| 0 <= c < lists.len() && (#[trigger] lists[c]).contains(id);
            assert(order.contains(c as usize));
            let j = choose|j: int| 0 <= j < order.len() && order[j] == c as usize;
            lemma_gathered_holds(lists, order, order.len(), j, id);
            assert(ids.contains(id));
        }
        if ids.contains(id) {
            assert(all.contains(id));
            let i = choose|i: int| 0 <= i < all.len() && all[i] == id;
            assert(all[i] < n);
        }
    }
    lemma_all_ids(ids, n);
    lemma_scanned(query, k, n_probe, centroids, lists, vectors);
    lemma_stable_sort(keyed);
    lemma_top_k(keyed, k);
    assert(stable_sort(keyed).len() == n);
    assert forall|i: int| 0 <= i < r.len() implies (#[trigger] r[i]).id < n by {
        assert(all.contains(r[i].id));
        assert(ids.contains(r[i].id));
    }
    assert forall|i: int, id: usize|
        0 <= i < r.len() && id < n && !r.contains(
            Hit { id, dist: #[trigger] sq_l2_of(query, vectors[id as int]) },
        ) implies (#[trigger] r[i]).dist.key_of() <= sq_l2_of(query, vectors[id as int]).key_of() by {
        let hit = Hit { id, dist: sq_l2_of(query, vectors[id as int]) };
        assert(ids.contains(id));
        let j = choose|j: int| 0 <= j < ids.len() && ids[j] == id;
        let x = (hit.dist.key_of(), hit);
        assert(keyed[j] == x);
        assert(keyed.contains(x));
        if top.contains(x) {
            let y = choose|y: int| 0 <= y < top.len() && top[y] == x;
            assert(r[y] == hit);
        }
        lemma_top_k_smallest(keyed, k, i, x);
        assert(keyed.contains(top[i]));
        let z = choose|z: int| 0 <= z < keyed.len() && keyed[z] == top[i];
        assert(top[i].0 == r[i].dist.key_of());
    }
}

/// A search that probes every list of an inverted file that posts each vector is
/// exact.
pub proof fn lemma_probe_all<R: Scalar>(
    query: Seq<R>,
    k: nat,
    n_probe: nat,
    centroids: Seq<Seq<R>>,
    to: Seq<Seq<(usize, R)>>,
    vectors: Seq<Seq<R>>,
)
    requires
        n_probe >= centroids.len(),
        centroids.len() <= usize::MAX,
        to.len() == vectors.len() <= usize::MAX,
        posts_each(to, centroids.len()),
    ensures
        ({
            let lists = filled(centroids.len(), to, vectors.len()).lists;
            let r = scanned(query, k, n_probe, centroids, lists, vectors);
            &&& r.len() == lesser(k, vectors.len())
            &&& forall|i: int, j: int|
                0 <= i <= j < r.len() ==> (#[trigger] r[i]).dist.key_of() <= (
                #[trigger] r[j]).dist.key_of()
            &&& forall|i: int, j: int|
                0 <= i < j < r.len() ==> (#[trigger] r[i]).id != (#[trigger] r[j]).id
            &&& forall|i: int|
                0 <= i < r.len() ==> {
                    &&& (#[trigger] r[i]).id < vectors.len()
                    &&& r[i].dist == sq_l2_of(query, vectors[r[i].id as int])
                }
            &&& forall|i: int, id: usize|
                0 <= i < r.len() && id < vectors.len() && !r.contains(
                    Hit { id, dist: #[trigger] sq_l2_of(query, vectors[id as int]) },
                ) ==> (#[trigger] r[i]).dist.key_of() <= sq_l2_of(
                    query,
                    vectors[id as int],
                ).key_of()
        }),
{
    let lists = filled(centroids.len(), to, vectors.len()).lists;
    lemma_filled(centroids.len(), to, to.len());
    assert forall|id: usize| id < vectors.len() implies covered(lists, id) by {
        lemma_filled_covers(centroids.len(), to, to.len(), id);
    }
    lemma_scanned_exact(query, k, n_probe, centroids, lists, vectors);
}

/// Posting to the nearest centroid posts each vector.
pub proof fn lemma_single_posts<R: Scalar>(vectors: Seq<Seq<R>>, centroids: Seq<Seq<R>>)
    requires
        0 < centroids.len() <= usize::MAX,
    ensures
        posts_each(single_targets(vectors, centroids), centroids.len()),
{
    assert forall|i: int| 0 <= i < vectors.len() implies targets_below(
        #[trigger] single_targets(vectors, centroids)[i],
        centroids.len(),
    ) by {
        lemma_nearest_centre(vectors[i], centroids, centroids.len());
        assert(nearest_centre(vectors[i], centroids) < centroids.len());
    }
}

/// Posting to the nearest centroids posts each vector.
pub proof fn lemma_spill_posts<R: Scalar>(
    vectors: Seq<Seq<R>>,
    centroids: Seq<Seq<R>>,
    spill: nat,
)
    requires
        0 < centroids.len() <= usize::MAX,
        spill >= 1,
    ensures
        posts_each(spill_targets(vectors, centroids, spill), centroids.len()),
{
    let to = spill_targets(vectors, centroids, spill);
    assert forall|i: int| 0 <= i < vectors.len() implies (#[trigger] to[i]).len() > 0
        && targets_below(to[i], centroids.len()) by {
        lemma_ranking(vectors[i], centroids);
        let order = ranking(vectors[i], centroids);
        let chosen = first_n(order, spill);
        assert forall|j: int| 0 <= j < to[i].len() implies (#[trigger] to[i][j]).0
            < centroids.len() by {
            assert(to[i][j].0 == chosen[j] && chosen[j] == order[j]);
        }
    }
}

/// Posting to centroids that complement each other posts each vector.
pub proof fn lemma_soar_posts<R: Scalar>(
    vectors: Seq<Seq<R>>,
    centroids: Seq<Seq<R>>,
    lambda: R,
    spill: nat,
)
    requires
        0 < centroids.len() <= usize::MAX,
        spill >= 1,
    ensures
        posts_each(soar_targets(vectors, centroids, lambda, spill), centroids.len()),
{
    let to = soar_targets(vectors, centroids, lambda, spill);
    assert forall|i: int| 0 <= i < vectors.len() implies (#[trigger] to[i]).len() > 0
        && targets_below(to[i], centroids.len()) by {
        lemma_soar_picks(vectors[i], centroids, lambda, spill);
    }
}

/// Ranked centroids come with their own distances, by ascending distance, and each
/// centroid is ranked once.
pub proof fn lemma_rank_centroids<R: Scalar>(x: Seq<R>, centroids: Seq<Seq<R>>)
    requires
        centroids.len() <= usize::MAX,
    ensures
        ({
            let r = with_distances(x, centroids, ranking(x, centroids));
            &&& r.len() == centroids.len()
            &&& forall|i: int|
                0 <= i < r.len() ==> (#[trigger] r[i]).0 < centroids.len() && r[i].1 == sq_l2_of(
                    x,
                    centroids[r[i].0 as int],
                )
            &&& forall|i: int, j: int|
                0 <= i < j < r.len() ==> {
                    let (a, b) = (#[trigger] r[i], #[trigger] r[j]);
                    ||| a.1.key_of() < b.1.key_of()
                    ||| a.1.key_of() == b.1.key_of() && a.0 < b.0
                }
        }),
{
    let order = ranking(x, centroids);
    let r = with_distances(x, centroids, order);
    lemma_ranking(x, centroids);
    assert forall|i: int| 0 <= i < r.len() implies (#[trigger] r[i]).0 < centroids.len() && r[i].1
        == sq_l2_of(x, centroids[r[i].0 as int]) by {
        assert(order[i] < centroids.len());
    }
    assert forall|i: int, j: int| 0 <= i < j < r.len() implies {
        let (a, b) = (#[trigger] r[i], #[trigger] r[j]);
        ||| a.1.key_of() < b.1.key_of()
        ||| a.1.key_of() == b.1.key_of() && a.0 < b.0
    } by {
        assert(r[i].0 == order[i] && r[j].0 == order[j]);
    }
}

/// The number of the first `n` vectors that are posted more than once.
pub open spec fn repeated<R>(to: Seq<Seq<(usize, R)>>, n: nat) -> nat
    decreases n,
{
    if n == 0 {
        0
    } else {
        repeated(to, (n - 1) as nat) + if to[n - 1].len() > 1 {
            1nat
        } else {
            0
        }
    }
}

/// What counts as spread are the vectors that are posted more than once, both where
/// they go to the nearest centroids and where the centroids complement each other.
pub proof fn lemma_spread<R: Scalar>(
    vectors: Seq<Seq<R>>,
    centroids: Seq<Seq<R>>,
    lambda: R,
    spill: nat,
    n: nat,
)
    requires
        n <= vectors.len(),
        0 < centroids.len() <= usize::MAX,
        spill >= 1,
    ensures
        repeated(spill_targets(vectors, centroids, spill), n) == spread(
            spill,
            centroids.len(),
            n,
        ),
        repeated(soar_targets(vectors, centroids, lambda, spill), n) == spread(
            spill,
            centroids.len(),
            n,
        ),
    decreases n,
{
    if n > 0 {
        let x = vectors[n - 1];
        lemma_spread(vectors, centroids, lambda, spill, (n - 1) as nat);
        lemma_ranking(x, centroids);
        lemma_soar_picks(x, centroids, lambda, spill);
        assert(spill_targets(vectors, centroids, spill)[n - 1].len() == lesser(
            spill,
            centroids.len(),
        ));
        assert(soar_targets(vectors, centroids, lambda, spill)[n - 1].len() == lesser(
            spill,
            centroids.len(),
        ));
    }
}

} // verus!
