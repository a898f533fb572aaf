//! What an approximate search estimates, and what it reports.

use vstd::prelude::*;

use crate::exact::{bounded, close, gaps, lemma_root, lemma_sq_l2_upto, lemma_times};
use crate::linalg::sq_l2_of;
use crate::scalar::{is_root, less, root, Fixed, Scalar};
use crate::soar_ivf::ivf_common::{
    estimated, estimates, keyed_hits, least_estimates, lemma_least_estimates, lemma_position_of,
    list_estimates, position_of, probed,
};
use crate::soar_ivf::ivf_single::residual_norm;
use crate::soar_ivf::metrics::Hit;
use crate::soar_ivf::postings::{filled, posted, posted_all, targets_below, Filled};
use crate::sorting::{lemma_top_k, lemma_top_k_smallest, top_k};

verus! {

/// The inner product of the residuals of two vectors.
pub open spec fn residual_products(
    q: Seq<Fixed>,
    x: Seq<Fixed>,
    c: Seq<Fixed>,
    n: nat,
) -> int
    decreases n,
{
    if n == 0 {
        0
    } else {
        residual_products(q, x, c, (n - 1) as nat) + (q[n - 1].raw - c[n - 1].raw) * (x[n - 1].raw
            - c[n - 1].raw)
    }
}

proof fn lemma_triangle(q: Seq<Fixed>, x: Seq<Fixed>, c: Seq<Fixed>, n: nat)
    ensures
        gaps(q, x, n) == gaps(q, c, n) + gaps(x, c, n) - 2 * residual_products(q, x, c, n),
    decreases n,
{
    if n > 0 {
        lemma_triangle(q, x, c, (n - 1) as nat);
        let (s, t, u) = (q[n - 1].raw as int, x[n - 1].raw as int, c[n - 1].raw as int);
        let (v, w) = (s - u, t - u);
        assert((s - t) * (s - t) == v * v + w * w - 2 * (v * w)) by (nonlinear_arith)
            requires
                v == s - u,
                w == t - u,
        ;
    }
}

/// The norm of a residual, squared, is the squared distance to the centroid, rounded
/// down to a square.
pub proof fn lemma_residual_norm(x: Seq<Fixed>, c: Seq<Fixed>, r: nat)
    requires
        bounded(x, 0x8000_0000),
        bounded(c, 0x8000_0000),
        x.len() == c.len(),
        is_root(r, sq_l2_of(x, c).raw as nat),
    ensures
        ({
            let norm = residual_norm(x, c);
            norm.raw == 0x100 * r && norm.times_of(norm).raw == r * r
        }),
{
    let d = sq_l2_of(x, c);
    lemma_sq_l2_upto(x, c, x.len());
    lemma_root(d.raw as nat);
    crate::scalar::lemma_root_unique(r, root(d.raw as nat), d.raw as nat);
    assert(r <= 0x8000_0000) by (nonlinear_arith)
        requires
            r * r <= 0x4000_0000_0000_0000,
    ;
    let norm = residual_norm(x, c);
    if d.raw == 0 {
        assert(r == 0) by (nonlinear_arith)
            requires
                r * r <= 0,
        ;
    }
    assert(norm.raw == 0x100 * r);
    let rr = r * r;
    assert(norm.raw * norm.raw == 0x1_0000 * rr) by (nonlinear_arith)
        requires
            norm.raw == 0x100 * r,
            rr == r * r,
    ;
    lemma_times(norm, norm);
}

/// The estimated distance of a query to a posting is the squared distance of the two
/// but for twice the inner product of their residuals from the centroid of the list.
/// Besides the distances, the norm of the vector's residual is rounded; `r` is the
/// whole number next to it.
pub proof fn lemma_estimate_exact(
    query: Seq<Fixed>,
    centroid: Seq<Fixed>,
    x: Seq<Fixed>,
    list: Seq<usize>,
    norms: Seq<Fixed>,
    i: int,
    r: nat,
)
    requires
        bounded(query, 0x2000_0000),
        bounded(centroid, 0x2000_0000),
        bounded(x, 0x2000_0000),
        query.len() == centroid.len() == x.len(),
        0 <= i < list.len(),
        norms[i] == residual_norm(x, centroid),
        is_root(r, sq_l2_of(x, centroid).raw as nat),
    ensures
        ({
            let hit = list_estimates(query, centroid, list, norms)[i];
            &&& hit.id == list[i]
            &&& close(
                0x1_0000 * hit.dist.raw,
                gaps(query, x, x.len()) + 2 * residual_products(query, x, centroid, x.len()),
                0x2_0000 * x.len() + 0x1_0000 * (2 * r + 1),
            )
        }),
{
    let n = x.len();
    lemma_sq_l2_upto(query, centroid, n);
    lemma_sq_l2_upto(x, centroid, n);
    lemma_small_gaps(query, centroid, n);
    lemma_small_gaps(x, centroid, n);
    lemma_residual_norm(x, centroid, r);
    lemma_triangle(query, x, centroid, n);
    let d = sq_l2_of(x, centroid).raw as int;
    assert((r + 1) * (r + 1) == r * r + 2 * r + 1) by (nonlinear_arith);
}

proof fn lemma_small_gaps(a: Seq<Fixed>, b: Seq<Fixed>, n: nat)
    requires
        bounded(a, 0x2000_0000),
        bounded(b, 0x2000_0000),
        n <= a.len(),
        n <= b.len(),
    ensures
        0 <= gaps(a, b, n) <= 0x1000_0000_0000_0000 * n,
    decreases n,
{
    if n > 0 {
        lemma_small_gaps(a, b, (n - 1) as nat);
        let e = a[n - 1].raw - b[n - 1].raw;
        assert(0 <= e * e <= 0x1000_0000_0000_0000) by (nonlinear_arith)
            requires
                -0x4000_0000 <= e <= 0x4000_0000,
        ;
    }
}

/// Every list says of each vector in it that it was posted there, and under which norm.
pub open spec fn true_postings<R>(f: Filled<R>, to: Seq<Seq<(usize, R)>>, n: nat) -> bool {
    &&& f.norms.len() == f.lists.len()
    &&& forall|c: int| 0 <= c < f.lists.len() ==> (#[trigger] f.norms[c]).len() == f.lists[c].len()
    &&& forall|c: int, j: int|
        0 <= c < f.lists.len() && 0 <= j < f.lists[c].len() ==> {
            let id = #[trigger] f.lists[c][j];
            id < n && to[id as int].contains((c as usize, f.norms[c][j]))
        }
}

proof fn lemma_posted_true<R>(
    f: Filled<R>,
    to: Seq<Seq<(usize, R)>>,
    n: nat,
    id: usize,
    some: Seq<(usize, R)>,
)
    requires
        true_postings(f, to, n),
        id < n <= to.len(),
        targets_below(some, f.lists.len()),
        f.lists.len() <= usize::MAX,
        forall|i: int| 0 <= i < some.len() ==> to[id as int].contains(#[trigger] some[i]),
    ensures
        true_postings(posted_all(f, id, some), to, n),
        posted_all(f, id, some).lists.len() == f.lists.len(),
    decreases some.len(),
{
    if some.len() > 0 {
        let t = some.drop_last();
        assert forall|i: int| 0 <= i < t.len() implies (#[trigger] t[i]).0 < f.lists.len()
            && to[id as int].contains(t[i]) by {
            assert(t[i] == some[i]);
        }
        lemma_posted_true(f, to, n, id, t);
        let g = posted_all(f, id, t);
        let last = some.last();
        assert(some[some.len() - 1].0 < f.lists.len());
        assert(to[id as int].contains(some[some.len() - 1]));
        let h = posted(g, last.0, id, last.1);
        let at = last.0 as int;
        assert forall|c: int| 0 <= c < h.lists.len() implies (#[trigger] h.norms[c]).len()
            == h.lists[c].len() by {
            assert(g.norms[c].len() == g.lists[c].len());
        }
        assert forall|c: int, j: int| 0 <= c < h.lists.len() && 0 <= j < h.lists[c].len() implies {
            let x = #[trigger] h.lists[c][j];
            x < n && to[x as int].contains((c as usize, h.norms[c][j]))
        } by {
            assert(g.norms[c].len() == g.lists[c].len());
            if c != at || j < g.lists[c].len() {
                assert(h.lists[c][j] == g.lists[c][j]);
                assert(h.norms[c][j] == g.norms[c][j]);
            }
        }
    }
}

/// A vector is only in the lists of the centroids that it was posted to, under the norm
/// that it was posted with.
pub proof fn lemma_true_postings<R>(n_centroids: nat, to: Seq<Seq<(usize, R)>>, n: nat)
    requires
        n <= to.len() <= usize::MAX,
        n_centroids <= usize::MAX,
        forall|i: int| 0 <= i < to.len() ==> targets_below(#[trigger] to[i], n_centroids),
    ensures
        true_postings(filled(n_centroids, to, n), to, n),
        filled(n_centroids, to, n).lists.len() == n_centroids,
    decreases n,
{
    if n > 0 {
        let m = (n - 1) as nat;
        lemma_true_postings(n_centroids, to, m);
        let f = filled(n_centroids, to, m);
        assert(targets_below(to[m as int], n_centroids));
        assert(true_postings(f, to, n));
        lemma_posted_true(f, to, n, m as usize, to[m as int]);
    }
}

/// Entry `j` of the list of the centroid that was probed at `p`, as a hit.
pub open spec fn entry<R: Scalar>(
    query: Seq<R>,
    centroids: Seq<Seq<R>>,
    lists: Seq<Seq<usize>>,
    norms: Seq<Seq<R>>,
    order: Seq<usize>,
    p: int,
    j: int,
) -> Hit<R> {
    let c = order[p] as int;
    list_estimates(query, centroids[c], lists[c], norms[c])[j]
}

/// A hit is one of the entries of the lists of the first `n` probed centroids.
pub open spec fn is_entry<R: Scalar>(
    query: Seq<R>,
    centroids: Seq<Seq<R>>,
    lists: Seq<Seq<usize>>,
    norms: Seq<Seq<R>>,
    order: Seq<usize>,
    n: nat,
    hit: Hit<R>,
) -> bool {
    exists|p: int, j: int|
        0 <= p < n && 0 <= j < lists[order[p] as int].len() && hit == #[trigger] entry(
            query,
            centroids,
            lists,
            norms,
            order,
            p,
            j,
        )
}

proof fn lemma_estimates_entries<R: Scalar>(
    query: Seq<R>,
    centroids: Seq<Seq<R>>,
    lists: Seq<Seq<usize>>,
    norms: Seq<Seq<R>>,
    order: Seq<usize>,
    n: nat,
    hit: Hit<R>,
)
    requires
        n <= order.len(),
    ensures
        estimates(query, centroids, lists, norms, order, n).contains(hit) <==> is_entry(
            query,
            centroids,
            lists,
            norms,
            order,
            n,
            hit,
        ),
    decreases n,
{
    let all = estimates(query, centroids, lists, norms, order, n);
    if n > 0 {
        let m = (n - 1) as nat;
        lemma_estimates_entries(query, centroids, lists, norms, order, m, hit);
        let rest = estimates(query, centroids, lists, norms, order, m);
        let c = order[m as int] as int;
        let here = list_estimates(query, centroids[c], lists[c], norms[c]);
        assert(all == rest + here);
        if all.contains(hit) {
            let i = choose|i: int| 0 <= i < all.len() && all[i] == hit;
            if i < rest.len() {
                assert(rest[i] == hit);
                let (p, j) = choose|p: int, j: int|
                    0 <= p < m && 0 <= j < lists[order[p] as int].len() && hit == #[trigger] entry(
                        query,
                        centroids,
                        lists,
                        norms,
                        order,
                        p,
                        j,
                    );
                assert(hit == entry(query, centroids, lists, norms, order, p, j));
            } else {
                let j = i - rest.len();
                assert(here[j] == hit);
                assert(hit == entry(query, centroids, lists, norms, order, m as int, j));
            }
        }
        if is_entry(query, centroids, lists, norms, order, n, hit) {
            let (p, j) = choose|p: int, j: int|
                0 <= p < n && 0 <= j < lists[order[p] as int].len() && hit == #[trigger] entry(
                    query,
                    centroids,
                    lists,
                    norms,
                    order,
                    p,
                    j,
                );
            if p < m {
                assert(is_entry(query, centroids, lists, norms, order, m, hit));
                let i = choose|i: int| 0 <= i < rest.len() && rest[i] == hit;
                assert(all[i] == hit);
            } else {
                assert(all[rest.len() + j] == hit);
            }
        }
    }
}

/// The least estimates are among the estimates, every number has one, and none is
/// greater than another estimate for its number.
proof fn lemma_least<R: Scalar>(found: Seq<Hit<R>>)
    ensures
        forall|i: int|
            0 <= i < least_estimates(found).len() ==> found.contains(
                #[trigger] least_estimates(found)[i],
            ),
        forall|j: int|
            0 <= j < found.len() ==> {
                let p = position_of(least_estimates(found), (#[trigger] found[j]).id);
                p is Some && !less(found[j].dist, least_estimates(found)[p->Some_0].dist)
            },
    decreases found.len(),
{
    if found.len() > 0 {
        let t = found.drop_last();
        lemma_least(t);
        let rest = least_estimates(t);
        let now = least_estimates(found);
        let hit = found.last();
        lemma_position_of(rest, hit.id);
        lemma_least_estimates(t);
        lemma_least_estimates(found);
        assert(found[found.len() - 1] == hit);
        assert forall|i: int| 0 <= i < now.len() implies found.contains(#[trigger] now[i]) by {
            if now[i] != hit {
                assert(now[i] == rest[i]);
                assert(t.contains(rest[i]));
                let x = choose|x: int| 0 <= x < t.len() && t[x] == rest[i];
                assert(found[x] == rest[i]);
            }
        }
        assert forall|j: int| 0 <= j < found.len() implies {
            let p = position_of(now, (#[trigger] found[j]).id);
            p is Some && !less(found[j].dist, now[p->Some_0].dist)
        } by {
            let id = found[j].id;
            lemma_position_of(now, id);
            if j < t.len() {
                assert(t[j] == found[j]);
                lemma_position_of(rest, id);
                let q = position_of(rest, id)->Some_0;
                assert(now[q].id == id);
                let p = position_of(now, id)->Some_0;
                assert(p == q);
            } else {
                match position_of(rest, hit.id) {
                    None => {
                        let p = position_of(now, id)->Some_0;
                        assert(now[now.len() - 1].id == id);
                        assert(p == now.len() - 1);
                    },
                    Some(q) => {
                        assert(now[q].id == id);
                        let p = position_of(now, id)->Some_0;
                        assert(p == q);
                    },
                }
            }
        }
    }
}

/// What an approximate search reports: no more than `k` hits, by ascending estimate,
/// each vector once. Each hit is an entry of a probed list, under the least of the
/// estimates for its vector; and no vector of a probed list that is left out has a
/// smaller estimate.
pub proof fn lemma_estimated<R: Scalar>(
    query: Seq<R>,
    k: nat,
    n_probe: nat,
    centroids: Seq<Seq<R>>,
    lists: Seq<Seq<usize>>,
    norms: Seq<Seq<R>>,
)
    ensures
        ({
            let order = probed(query, centroids, n_probe);
            let n = order.len();
            let r = estimated(query, k, n_probe, centroids, lists, norms);
            &&& r.len() <= k
            &&& forall|i: int, j: int|
                0 <= i <= j < r.len() ==> (#[trigger] r[i]).dist.key_of() <= (
                #[trigger] r[j]).dist.key_of()
            &&& forall|i: int|
                0 <= i < r.len() ==> is_entry(
                    query,
                    centroids,
                    lists,
                    norms,
                    order,
                    n,
                    #[trigger] r[i],
                )
            &&& forall|i: int, p: int, j: int|
                0 <= i < r.len() && 0 <= p < n && 0 <= j < lists[order[p] as int].len() ==> {
                    let other = #[trigger] entry(query, centroids, lists, norms, order, p, j);
                    other.id == (#[trigger] r[i]).id ==> !less(other.dist, r[i].dist)
                }
            &&& forall|i: int, p: int, j: int|
                0 <= i < r.len() && 0 <= p < n && 0 <= j < lists[order[p] as int].len() ==> {
                    let other = #[trigger] entry(query, centroids, lists, norms, order, p, j);
                    ||| (#[trigger] r[i]).dist.key_of() <= other.dist.key_of()
                    ||| exists|x: int| 0 <= x < r.len() && (#[trigger] r[x]).id == other.id
                }
        }),
{
    let order = probed(query, centroids, n_probe);
    let n = order.len();
    let all = estimates(query, centroids, lists, norms, order, n);
    let least = least_estimates(all);
    let keyed = keyed_hits(least);
    let top = top_k(keyed, k);
    let r = estimated(query, k, n_probe, centroids, lists, norms);
    lemma_top_k(keyed, k);
    lemma_least(all);
    lemma_least_estimates(all);
    assert forall|i: int| 0 <= i < r.len() implies top[i].0 == (#[trigger] r[i]).dist.key_of()
        && least.contains(r[i]) by {
        assert(keyed.contains(top[i]));
        let j = choose|j: int| 0 <= j < keyed.len() && keyed[j] == top[i];
        assert(least[j] == r[i]);
    }
    assert forall|i: int, j: int| 0 <= i <= j < r.len() implies (#[trigger] r[i]).dist.key_of() <= (
    #[trigger] r[j]).dist.key_of() by {
        assert(top[i].0 <= top[j].0);
    }
    assert forall|i: int| 0 <= i < r.len() implies is_entry(
        query,
        centroids,
        lists,
        norms,
        order,
        n,
        #[trigger] r[i],
    ) by {
        let j = choose|j: int| 0 <= j < least.len() && least[j] == r[i];
        assert(all.contains(least[j]));
        lemma_estimates_entries(query, centroids, lists, norms, order, n, r[i]);
    }
    assert forall|i: int, p: int, j: int|
        0 <= i < r.len() && 0 <= p < n && 0 <= j < lists[order[p] as int].len() implies {
        let other = #[trigger] entry(query, centroids, lists, norms, order, p, j);
        &&& other.id == (#[trigger] r[i]).id ==> !less(other.dist, r[i].dist)
        &&& r[i].dist.key_of() <= other.dist.key_of() || exists|x: int|
            0 <= x < r.len() && (#[trigger] r[x]).id == other.id
    } by {
        let other = entry(query, centroids, lists, norms, order, p, j);
        lemma_estimates_entries(query, centroids, lists, norms, order, n, other);
        assert(is_entry(query, centroids, lists, norms, order, n, other));
        let y = choose|y: int| 0 <= y < all.len() && all[y] == other;
        let q = position_of(least, all[y].id)->Some_0;
        lemma_position_of(least, other.id);
        let z = choose|z: int| 0 <= z < least.len() && least[z] == r[i];
        if other.id == r[i].id {
            assert(z == q);
        }
        let x = keyed[q];
        assert(keyed.contains(x));
        if top.contains(x) {
            let w = choose|w: int| 0 <= w < top.len() && top[w] == x;
            assert(r[w].id == other.id);
        } else {
            lemma_top_k_smallest(keyed, k, i, x);
        }
    }
}

} // verus!
