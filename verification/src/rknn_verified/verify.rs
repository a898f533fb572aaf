//! Verification of candidates by their own neighbourhoods.
//!
//! A candidate is kept if the query lies in the ball around it that reaches to
//! its own farthest neighbour. Neighbours are looked up when needed, or once for
//! all vectors.

use vstd::prelude::*;

use crate::linalg::{common, sq_l2, sq_l2_of, sq_l2_upto, tiny};
use crate::rknn_verified::{
    holds_number, keyed, nearest_found, scan, FlatL2Index, Found, NnIndex,
};
use crate::scalar::{is_less, less, Fixed, Scalar};
use crate::sorting::{
    first_n, indexed, lemma_stable_sort, lemma_stable_sort_contains, lemma_stable_sort_positions,
    lemma_top_k, lemma_top_k_smallest, stable_sort, top_k,
};
use crate::table::copy_row;

verus! {

/// When neighbours are looked up.
#[derive(Clone, Copy, Debug, PartialEq, Eq, Structural)]
pub enum VerifyMode {
    /// When a candidate is verified.
    Live,
    /// Once, before any candidate is verified.
    Cached,
}

/// The hits other than `id`.
pub open spec fn without<R>(found: Seq<Found<R>>, id: usize) -> Seq<Found<R>>
    decreases found.len(),
{
    if found.len() == 0 {
        found
    } else {
        let rest = without(found.drop_last(), id);
        if found.last().0 != id {
            rest.push(found.last())
        } else {
            rest
        }
    }
}

/// The distance of the last hit, or zero where there is none.
pub open spec fn radius<R: Scalar>(found: Seq<Found<R>>) -> R {
    if found.len() == 0 {
        R::zero_of()
    } else {
        found.last().1
    }
}

/// The neighbours of vector `id`: the other ones among its `k + 1` hits.
pub open spec fn own_hits<R: Scalar, I: NnIndex<R>>(index: I, id: usize, k: nat) -> Seq<Found<R>> {
    without(index.found(index.points()[id as int], k + 1), id)
}

/// The neighbours of vector `id` that are kept for later: `k` of them, but at
/// least one.
pub open spec fn kept_hits<R: Scalar, I: NnIndex<R>>(index: I, id: usize, k: nat) -> Seq<Found<R>> {
    first_n(
        own_hits(index, id, k),
        if k >= 1 {
            k
        } else {
            1
        },
    )
}

/// Some neighbour is the query.
pub open spec fn among<R: Scalar, I: NnIndex<R>>(
    index: I,
    hits: Seq<Found<R>>,
    q: Seq<R>,
) -> bool {
    exists|i: int|
        0 <= i < hits.len() && {
            let v = index.points()[(#[trigger] hits[i]).0 as int];
            v.len() == q.len() && less(sq_l2_of(v, q), tiny())
        }
}

/// The query lies in the ball around vector `id` that is as wide as `slack`
/// times `reach`.
pub open spec fn inside<R: Scalar, I: NnIndex<R>>(
    index: I,
    slack: R,
    q: Seq<R>,
    id: usize,
    reach: R,
) -> bool {
    !less(slack.times_of(reach), sq_l2_of(q, index.points()[id as int]))
}

/// Candidate `id` accepts the query.
pub open spec fn accepted<R: Scalar, I: NnIndex<R>>(
    index: I,
    k: nat,
    slack: R,
    mode: VerifyMode,
    q: Seq<R>,
    id: usize,
) -> bool {
    match mode {
        VerifyMode::Live => inside(index, slack, q, id, radius(own_hits(index, id, k))),
        VerifyMode::Cached => {
            let hits = kept_hits(index, id, k);
            inside(index, slack, q, id, radius(hits)) || among(index, hits, q)
        },
    }
}

/// The candidates that accept the query, in their order.
pub open spec fn accepted_only<R: Scalar, I: NnIndex<R>>(
    index: I,
    k: nat,
    slack: R,
    mode: VerifyMode,
    q: Seq<R>,
    cands: Seq<Found<R>>,
) -> Seq<Found<R>>
    decreases cands.len(),
{
    if cands.len() == 0 {
        cands
    } else {
        let rest = accepted_only(index, k, slack, mode, q, cands.drop_last());
        if accepted(index, k, slack, mode, q, cands.last().0) {
            rest.push(cands.last())
        } else {
            rest
        }
    }
}

/// `sub` can be had from `all` by leaving entries out.
pub open spec fn is_subsequence<A>(sub: Seq<A>, all: Seq<A>) -> bool
    decreases all.len(),
{
    if sub.len() == 0 {
        true
    } else if all.len() == 0 {
        false
    } else {
        (sub.last() == all.last() && is_subsequence(sub.drop_last(), all.drop_last()))
            || is_subsequence(sub, all.drop_last())
    }
}

/// Verification only leaves candidates out: what it keeps is in the same order,
/// and each candidate that is kept accepts the query.
pub proof fn lemma_accepted_only<R: Scalar, I: NnIndex<R>>(
    index: I,
    k: nat,
    slack: R,
    mode: VerifyMode,
    q: Seq<R>,
    cands: Seq<Found<R>>,
)
    ensures
        is_subsequence(accepted_only(index, k, slack, mode, q, cands), cands),
        accepted_only(index, k, slack, mode, q, cands).len() <= cands.len(),
        forall|i: int|
            0 <= i < accepted_only(index, k, slack, mode, q, cands).len() ==> accepted(
                index,
                k,
                slack,
                mode,
                q,
                (#[trigger] accepted_only(index, k, slack, mode, q, cands)[i]).0,
            ),
    decreases cands.len(),
{
    if cands.len() > 0 {
        let t = cands.drop_last();
        lemma_accepted_only(index, k, slack, mode, q, t);
        let rest = accepted_only(index, k, slack, mode, q, t);
        let now = accepted_only(index, k, slack, mode, q, cands);
        if accepted(index, k, slack, mode, q, cands.last().0) {
            assert(now.drop_last() =~= rest);
        }
        assert forall|i: int| 0 <= i < now.len() implies accepted(
            index,
            k,
            slack,
            mode,
            q,
            (#[trigger] now[i]).0,
        ) by {
            if i < rest.len() {
                assert(now[i] == rest[i]);
            }
        }
    }
}

proof fn lemma_without<R>(found: Seq<Found<R>>, id: usize)
    ensures
        without(found, id).len() <= found.len(),
        forall|i: int|
            0 <= i < without(found, id).len() ==> found.contains(#[trigger] without(found, id)[i]),
        holds_number(found, id) ==> without(found, id).len() < found.len(),
    decreases found.len(),
{
    if found.len() > 0 {
        let t = found.drop_last();
        lemma_without(t, id);
        let rest = without(t, id);
        let now = without(found, id);
        assert forall|i: int| 0 <= i < now.len() implies found.contains(#[trigger] now[i]) by {
            if i < rest.len() {
                assert(now[i] == rest[i]);
                assert(t.contains(rest[i]));
                let j = choose|j: int| 0 <= j < t.len() && t[j] == rest[i];
                assert(found[j] == now[i]);
            } else {
                assert(found[found.len() - 1] == now[i]);
            }
        }
        if holds_number(found, id) {
            let i = choose|i: int| 0 <= i < found.len() && (#[trigger] found[i]).0 == id;
            if i < t.len() {
                assert(t[i].0 == id);
            }
        }
    }
}

/// Where a candidate is among its own hits, both modes measure with the same
/// radius, and a candidate that accepts a query when neighbours are looked up
/// live accepts it with kept neighbours too.
pub proof fn lemma_modes_agree<R: Scalar, I: NnIndex<R>>(
    index: I,
    k: nat,
    slack: R,
    q: Seq<R>,
    id: usize,
)
    requires
        k >= 1,
        index.found(index.points()[id as int], k + 1).len() <= k + 1,
        holds_number(index.found(index.points()[id as int], k + 1), id),
    ensures
        radius(kept_hits(index, id, k)) == radius(own_hits(index, id, k)),
        accepted(index, k, slack, VerifyMode::Live, q, id) ==> accepted(
            index,
            k,
            slack,
            VerifyMode::Cached,
            q,
            id,
        ),
{
    lemma_without(index.found(index.points()[id as int], k + 1), id);
    let own = own_hits(index, id, k);
    assert(own.len() <= k);
    assert(first_n(own, k) =~= own);
}

proof fn lemma_without_one<R>(found: Seq<Found<R>>, id: usize)
    requires
        forall|i: int, j: int|
            0 <= i < j < found.len() ==> (#[trigger] found[i]).0 != (#[trigger] found[j]).0,
    ensures
        without(found, id).len() + 1 >= found.len(),
        (forall|i: int| 0 <= i < found.len() ==> (#[trigger] found[i]).0 != id) ==> without(
            found,
            id,
        ).len() == found.len(),
    decreases found.len(),
{
    if found.len() > 0 {
        let t = found.drop_last();
        assert forall|i: int, j: int| 0 <= i < j < t.len() implies (#[trigger] t[i]).0 != (
        #[trigger] t[j]).0 by {
            assert(found[i].0 != found[j].0);
        }
        lemma_without_one(t, id);
        if found.last().0 == id {
            assert forall|i: int| 0 <= i < t.len() implies (#[trigger] t[i]).0 != id by {
                assert(found[i].0 != found[found.len() - 1].0);
            }
        } else if forall|i: int| 0 <= i < found.len() ==> (#[trigger] found[i]).0 != id {
            assert forall|i: int| 0 <= i < t.len() implies (#[trigger] t[i]).0 != id by {
                assert(found[i].0 != id);
            }
        }
    }
}

/// A scan returns each vector once.
pub proof fn lemma_scan_distinct<R: Scalar>(q: Seq<R>, points: Seq<Seq<R>>, k: nat)
    requires
        points.len() <= usize::MAX,
    ensures
        forall|i: int, j: int|
            0 <= i < j < nearest_found(q, points, k).len() ==> (#[trigger] nearest_found(
                q,
                points,
                k,
            )[i]).0 != (#[trigger] nearest_found(q, points, k)[j]).0,
        nearest_found(q, points, k).len() == if k <= points.len() {
            k
        } else {
            points.len()
        },
        k >= points.len() ==> forall|id: usize|
            id < points.len() ==> #[trigger] holds_number(nearest_found(q, points, k), id),
{
    let all = keyed(scan(q, points));
    lemma_top_k(all, k);
    lemma_stable_sort(all);
    lemma_stable_sort_positions(all);
    let pos = stable_sort(indexed(all));
    let found = nearest_found(q, points, k);
    assert forall|i: int, j: int| 0 <= i < j < found.len() implies (#[trigger] found[i]).0 != (
    #[trigger] found[j]).0 by {
        assert(stable_sort(all)[i] == all[pos[i].1 as int]);
        assert(stable_sort(all)[j] == all[pos[j].1 as int]);
        assert(pos[i].1 != pos[j].1);
    }
    if k >= points.len() {
        assert forall|id: usize| id < points.len() implies #[trigger] holds_number(found, id) by {
            assert(all.contains(all[id as int]));
            lemma_stable_sort_contains(all, all[id as int]);
            let i = choose|i: int|
                0 <= i < stable_sort(all).len() && stable_sort(all)[i] == all[id as int];
            assert(found[i].0 == id);
        }
    }
}

/// Over an exact index, as many neighbours are kept for each vector as asked
/// for, or all other vectors.
pub proof fn lemma_kept_count<R: Scalar>(index: FlatL2Index<R>, id: usize, k: nat)
    requires
        id < index.points().len() <= usize::MAX,
        k >= 1,
    ensures
        kept_hits(index, id, k).len() == if k <= index.points().len() - 1 {
            k as int
        } else {
            index.points().len() - 1
        },
{
    let points = index.points();
    let q = points[id as int];
    let found = nearest_found(q, points, k + 1);
    lemma_scan_distinct(q, points, k + 1);
    if k + 1 >= points.len() {
        assert(holds_number(found, id));
    }
    lemma_without_one(found, id);
    lemma_without(found, id);
}

/// A vector has distance zero to itself, no vector is nearer, and no other
/// distance has the key of zero.
pub open spec fn settled<R: Scalar>(points: Seq<Seq<R>>, id: usize) -> bool {
    let p = points[id as int];
    &&& sq_l2_of(p, p) == R::zero_of()
    &&& forall|j: int|
        0 <= j < points.len() ==> {
            let d = #[trigger] sq_l2_of(p, points[j]);
            &&& !less(d, R::zero_of())
            &&& d.key_of() == R::zero_of().key_of() ==> d == R::zero_of()
        }
}

/// Every component lies between minus 16384 and 16384, and there are no more
/// than 16384 of them.
pub open spec fn moderate(v: Seq<Fixed>) -> bool {
    v.len() <= 0x4000 && forall|i: int|
        0 <= i < v.len() ==> -0x4000_0000 <= (#[trigger] v[i]).raw <= 0x4000_0000
}

proof fn lemma_moderate_distance(a: Seq<Fixed>, b: Seq<Fixed>, n: nat)
    requires
        moderate(a),
        moderate(b),
        n <= a.len(),
        n <= b.len(),
    ensures
        0 <= sq_l2_upto(a, b, n).raw <= n * 0x4000_0000_0000,
        a == b ==> sq_l2_upto(a, b, n).raw == 0,
    decreases n,
{
    if n > 0 {
        lemma_moderate_distance(a, b, (n - 1) as nat);
        let x = a[n - 1];
        let y = b[n - 1];
        assert(-0x4000_0000 <= x.raw <= 0x4000_0000 && -0x4000_0000 <= y.raw <= 0x4000_0000);
        let d = x.minus_of(y);
        assert(d.raw == x.raw - y.raw);
        let product = d.raw * d.raw;
        assert(0 <= product <= 0x8000_0000 * 0x8000_0000) by (nonlinear_arith)
            requires
                product == d.raw * d.raw,
                -0x8000_0000 <= d.raw <= 0x8000_0000,
        ;
        let square = d.times_of(d);
        assert(square.raw == product / 0x1_0000);
        assert(0 <= square.raw <= 0x4000_0000_0000);
        if a == b {
            assert(product == 0) by (nonlinear_arith)
                requires
                    product == d.raw * d.raw,
                    d.raw == 0,
            ;
            assert(square.raw == 0);
        }
        assert((n - 1) * 0x4000_0000_0000 + 0x4000_0000_0000 == n * 0x4000_0000_0000);
    }
}

/// Vectors of moderate fixed-point numbers are settled.
pub proof fn lemma_moderate_settled(points: Seq<Seq<Fixed>>, id: usize)
    requires
        id < points.len(),
        forall|j: int| 0 <= j < points.len() ==> moderate(#[trigger] points[j]),
    ensures
        settled(points, id),
{
    let p = points[id as int];
    assert(moderate(p));
    lemma_moderate_distance(p, p, common(p, p));
    assert forall|j: int| 0 <= j < points.len() implies {
        let d = #[trigger] sq_l2_of(p, points[j]);
        &&& !less(d, Fixed::zero_of())
        &&& d.key_of() == Fixed::zero_of().key_of() ==> d == Fixed::zero_of()
    } by {
        assert(moderate(points[j]));
        lemma_moderate_distance(p, points[j], common(p, points[j]));
    }
}

/// The distance of vector `id` to the `k`-th nearest of the other vectors, or to
/// the farthest one where there are fewer, or zero where there is none.
pub open spec fn reach_of<R: Scalar>(points: Seq<Seq<R>>, id: usize, k: nat) -> R {
    radius(first_n(without(nearest_found(points[id as int], points, points.len()), id), k))
}

/// What is left of the first hits are the first ones of what is left.
proof fn lemma_without_take<R>(found: Seq<Found<R>>, id: usize, m: int)
    requires
        0 <= m <= found.len(),
    ensures
        without(found.take(m), id).len() <= without(found, id).len(),
        without(found.take(m), id) == without(found, id).take(
            without(found.take(m), id).len() as int,
        ),
    decreases found.len(),
{
    if m == found.len() {
        assert(found.take(m) =~= found);
        assert(without(found, id).take(without(found, id).len() as int) =~= without(found, id));
    } else {
        let t = found.drop_last();
        assert(t.take(m) =~= found.take(m));
        lemma_without_take(t, id, m);
        let few = without(found.take(m), id);
        assert(without(t, id).take(few.len() as int) =~= without(found, id).take(few.len() as int));
    }
}

proof fn lemma_scan_prefix<R: Scalar>(q: Seq<R>, points: Seq<Seq<R>>, k: nat)
    ensures
        nearest_found(q, points, k) == first_n(nearest_found(q, points, points.len()), k),
        nearest_found(q, points, points.len()).len() == points.len(),
{
    let all = keyed(scan(q, points));
    lemma_stable_sort(all);
    lemma_top_k(all, k);
    lemma_top_k(all, points.len());
    assert(nearest_found(q, points, k) =~= first_n(nearest_found(q, points, points.len()), k));
}

/// Over an exact index both modes measure with the distance of a candidate to
/// its `k`-th nearest other vector, so a candidate accepts a query when
/// neighbours are looked up live if and only if the query is within `slack` times
/// that distance, and then it accepts it with kept neighbours too.
pub proof fn lemma_exact_modes<R: Scalar>(
    index: FlatL2Index<R>,
    k: nat,
    slack: R,
    q: Seq<R>,
    id: usize,
)
    requires
        id < index.points().len() <= usize::MAX,
        settled(index.points(), id),
    ensures
        radius(own_hits(index, id, k)) == reach_of(index.points(), id, k),
        radius(kept_hits(index, id, k)) == reach_of(index.points(), id, k),
        accepted(index, k, slack, VerifyMode::Live, q, id) <==> !less(
            slack.times_of(reach_of(index.points(), id, k)),
            sq_l2_of(q, index.points()[id as int]),
        ),
        accepted(index, k, slack, VerifyMode::Live, q, id) ==> accepted(
            index,
            k,
            slack,
            VerifyMode::Cached,
            q,
            id,
        ),
{
    let points = index.points();
    let n = points.len();
    let p = points[id as int];
    let full = nearest_found(p, points, n);
    let found = nearest_found(p, points, k + 1);
    let own = own_hits(index, id, k);
    let kept = kept_hits(index, id, k);
    let rest = without(full, id);
    lemma_scan_prefix(p, points, k + 1);
    lemma_scan_distinct(p, points, k + 1);
    lemma_scan_distinct(p, points, n);
    lemma_without(found, id);
    lemma_without_one(found, id);
    lemma_without(full, id);
    lemma_without_one(full, id);
    assert(holds_number(full, id));
    if k + 1 >= n {
        assert(found =~= full);
        assert(own.len() == n - 1);
        assert(first_n(own, k) =~= own);
        if k == 0 {
            assert(kept =~= own);
        }
    } else {
        assert(found == full.take((k + 1) as int));
        lemma_without_take(full, id, (k + 1) as int);
        if holds_number(found, id) {
            assert(own.len() == k);
            assert(first_n(rest, k) =~= own);
            if k >= 1 {
                assert(first_n(own, k) =~= own);
            } else {
                assert(kept =~= own);
            }
        } else {
            assert(own.len() == k + 1) by {
                assert forall|i: int| 0 <= i < found.len() implies (#[trigger] found[i]).0 != id by {
                }
            }
            assert forall|i: int| 0 <= i < own.len() implies (#[trigger] own[i]).1
                == R::zero_of() by {
                assert(found.contains(own[i]));
                let j = choose|j: int| 0 <= j < found.len() && found[j] == own[i];
                lemma_unlisted(p, points, k + 1, id, j);
                let all = keyed(scan(p, points));
                lemma_top_k(all, k + 1);
                assert(all.contains(top_k(all, k + 1)[j]));
                let y = choose|y: int| 0 <= y < all.len() && all[y] == top_k(all, k + 1)[j];
                assert(found[j].1 == sq_l2_of(p, points[y]));
            }
            assert(first_n(rest, k) =~= own.take(k as int));
            if k >= 1 {
                assert(kept =~= own.take(k as int));
                assert(own[k - 1].1 == R::zero_of());
                assert(own[k as int].1 == R::zero_of());
            } else {
                assert(kept =~= own);
                assert(own[0].1 == R::zero_of());
            }
        }
    }
}

/// A vector that a scan leaves out is no nearer than a hit.
proof fn lemma_unlisted<R: Scalar>(q: Seq<R>, points: Seq<Seq<R>>, k: nat, id: usize, i: int)
    requires
        id < points.len() <= usize::MAX,
        !holds_number(nearest_found(q, points, k), id),
        0 <= i < nearest_found(q, points, k).len(),
    ensures
        nearest_found(q, points, k)[i].1.key_of() <= sq_l2_of(q, points[id as int]).key_of(),
{
    let all = keyed(scan(q, points));
    let top = top_k(all, k);
    let found = nearest_found(q, points, k);
    let x = all[id as int];
    lemma_top_k(all, k);
    assert(all.contains(x));
    if top.contains(x) {
        let j = choose|j: int| 0 <= j < top.len() && top[j] == x;
        assert(found[j].0 == id);
    }
    lemma_top_k_smallest(all, k, i, x);
    assert(all.contains(top[i]));
    let y = choose|y: int| 0 <= y < all.len() && all[y] == top[i];
    assert(found[i] == top[i].1);
}

/// Over an exact index a candidate accepts itself as a query in both modes, where
/// `slack` times zero or a distance of the candidate is not less than zero.
pub proof fn lemma_accepts_itself<R: Scalar>(
    index: FlatL2Index<R>,
    k: nat,
    slack: R,
    mode: VerifyMode,
    id: usize,
)
    requires
        id < index.points().len() <= usize::MAX,
        settled(index.points(), id),
        !less(slack.times_of(R::zero_of()), R::zero_of()),
        forall|j: int|
            0 <= j < index.points().len() ==> !less(
                slack.times_of(
                    #[trigger] sq_l2_of(index.points()[id as int], index.points()[j]),
                ),
                R::zero_of(),
            ),
    ensures
        accepted(index, k, slack, mode, index.points()[id as int], id),
{
    let points = index.points();
    let p = points[id as int];
    let full = nearest_found(p, points, points.len());
    let rest = without(full, id);
    let few = first_n(rest, k);
    lemma_exact_modes(index, k, slack, p, id);
    lemma_without(full, id);
    if few.len() > 0 {
        let hit = few.last();
        assert(hit == rest[few.len() - 1]);
        assert(full.contains(rest[few.len() - 1]));
        let j = choose|j: int| 0 <= j < full.len() && full[j] == hit;
        let all = keyed(scan(p, points));
        lemma_top_k(all, points.len());
        assert(all.contains(top_k(all, points.len())[j]));
        let y = choose|y: int| 0 <= y < all.len() && all[y] == top_k(all, points.len())[j];
        assert(hit.1 == sq_l2_of(p, points[y]));
    }
}

/// Keeps candidates whose own neighbourhood the query lies in.
pub struct RknnVerifier<'a, R, I> {
    index: &'a I,
    k_rev: usize,
    slack: R,
    /// The neighbours of each vector and the distance of the last one.
    cache: Option<Vec<(Vec<usize>, R)>>,
    mode: VerifyMode,
}

/// The numbers of hits.
pub open spec fn numbers<R>(found: Seq<Found<R>>) -> Seq<usize> {
    Seq::new(found.len(), |i: int| found[i].0)
}

/// `entry` holds the neighbours of vector `id` that are kept for later.
pub open spec fn is_kept<R: Scalar, I: NnIndex<R>>(
    index: I,
    id: usize,
    k: nat,
    entry: (Vec<usize>, R),
) -> bool {
    let hits = kept_hits(index, id, k);
    &&& entry.0@ == numbers(hits)
    &&& entry.1 == radius(hits)
    &&& forall|x: int| 0 <= x < hits.len() ==> (#[trigger] hits[x]).0 < index.points().len()
}

impl<'a, R: Scalar, I: NnIndex<R>> RknnVerifier<'a, R, I> {
    /// The index that neighbours are looked up in.
    pub closed spec fn backend(&self) -> I {
        *self.index
    }

    /// The number of neighbours.
    pub closed spec fn size(&self) -> nat {
        self.k_rev as nat
    }

    /// How many times its radius a ball reaches.
    pub closed spec fn stretch(&self) -> R {
        self.slack
    }

    /// When neighbours are looked up.
    pub closed spec fn timing(&self) -> VerifyMode {
        self.mode
    }

    /// The kept neighbours are those of the vectors.
    pub closed spec fn wf(&self) -> bool {
        &&& self.index.valid()
        &&& self.k_rev < usize::MAX
        &&& self.index.answers((self.k_rev + 1) as nat)
        &&& match self.cache {
            None => self.mode == VerifyMode::Live,
            Some(cache) => {
                &&& self.mode == VerifyMode::Cached
                &&& cache@.len() == self.index.points().len()
                &&& forall|id: int|
                    0 <= id < cache@.len() ==> is_kept(
                        *self.index,
                        id as usize,
                        self.k_rev as nat,
                        #[trigger] cache@[id],
                    )
            },
        }
    }

    /// A verifier that looks neighbours up when a candidate is verified.
    pub fn new_live(index: &'a I, k_rev: usize, slack: R) -> (r: Self)
        requires
            index.valid(),
            k_rev < usize::MAX,
            index.answers((k_rev + 1) as nat),
        ensures
            r.wf(),
            r.backend() == *index,
            r.size() == k_rev,
            r.stretch() == slack,
            r.timing() == VerifyMode::Live,
    {
        RknnVerifier { index, k_rev, slack, cache: None, mode: VerifyMode::Live }
    }

    /// A verifier that looks the neighbours of all vectors up now.
    pub fn new_cached(index: &'a I, k_rev: usize, slack: R) -> (r: Self)
        requires
            index.valid(),
            k_rev < usize::MAX,
            index.answers((k_rev + 1) as nat),
        ensures
            r.wf(),
            r.backend() == *index,
            r.size() == k_rev,
            r.stretch() == slack,
            r.timing() == VerifyMode::Cached,
    {
        let n: usize = index.len();
        let few: usize = if k_rev >= 1 {
            k_rev
        } else {
            1
        };
        let mut cache: Vec<(Vec<usize>, R)> = Vec::new();
        let mut id: usize = 0;
        while id < n
            invariant
                id <= n,
                n == index.points().len(),
                index.valid(),
                k_rev < usize::MAX,
                index.answers((k_rev + 1) as nat),
                few == if k_rev >= 1 {
                    k_rev
                } else {
                    1
                },
                cache@.len() == id,
                forall|id: int|
                    0 <= id < cache@.len() ==> is_kept(
                        *index,
                        id as usize,
                        k_rev as nat,
                        #[trigger] cache@[id],
                    ),
            decreases n - id,
        {
            let v = copy_row(index.vector(id));
            let found = index.search(v.as_slice(), k_rev + 1);
            let ghost own = own_hits(*index, id, k_rev as nat);
            let ghost hits = kept_hits(*index, id, k_rev as nat);
            let count: usize = found.len();
            let mut ids: Vec<usize> = Vec::new();
            let mut d_k = R::zero();
            let mut i: usize = 0;
            assert(found@.take(0) =~= Seq::empty());
            assert(ids@ =~= numbers(first_n(without(found@.take(0), id), few as nat)));
            while i < count
                invariant
                    i <= count,
                    count == found@.len(),
                    few >= 1,
                    ids@ == numbers(first_n(without(found@.take(i as int), id), few as nat)),
                    d_k == radius(first_n(without(found@.take(i as int), id), few as nat)),
                decreases count - i,
            {
                let (nid, d) = found[i];
                let ghost before = without(found@.take(i as int), id);
                let ghost after = without(found@.take(i + 1), id);
                proof {
                    assert(found@.take(i + 1).drop_last() =~= found@.take(i as int));
                    assert(found@.take(i + 1).last() == found@[i as int]);
                }
                if nid != id && ids.len() < few {
                    ids.push(nid);
                    d_k = d;
                    proof {
                        assert(after == before.push(found@[i as int]));
                        assert(first_n(after, few as nat) =~= after);
                    }
                }
                proof {
                    assert(ids@ =~= numbers(first_n(after, few as nat)));
                    if !(nid != id && before.len() < few) {
                        assert(first_n(after, few as nat) =~= first_n(before, few as nat));
                    }
                }
                i += 1;
            }
            proof {
                assert(found@.take(count as int) =~= found@);
                lemma_without(found@, id);
                assert(hits == first_n(own, few as nat));
                assert forall|x: int| 0 <= x < hits.len() implies (#[trigger] hits[x]).0
                    < index.points().len() by {
                    assert(own[x] == hits[x]);
                    assert(found@.contains(own[x]));
                    let y = choose|y: int| 0 <= y < found@.len() && found@[y] == own[x];
                    assert(found@[y].0 < index.points().len());
                }
            }
            assert(is_kept(*index, id, k_rev as nat, (ids, d_k)));
            cache.push((ids, d_k));
            id += 1;
        }
        RknnVerifier { index, k_rev, slack, cache: Some(cache), mode: VerifyMode::Cached }
    }

    /// When neighbours are looked up.
    pub fn mode(&self) -> (r: VerifyMode)
        ensures
            r == self.timing(),
    {
        self.mode
    }

    /// The number of neighbours.
    pub fn k_rev(&self) -> (r: usize)
        ensures
            r == self.size(),
    {
        self.k_rev
    }

    /// How many times its radius a ball reaches.
    pub fn slack(&self) -> (r: R)
        ensures
            r == self.stretch(),
    {
        self.slack
    }

    /// The kept neighbours of each vector, and the distance of the last one.
    pub fn cache(&self) -> (r: Option<&Vec<(Vec<usize>, R)>>)
        requires
            self.wf(),
        ensures
            self.timing() == VerifyMode::Live ==> r is None,
            self.timing() == VerifyMode::Cached ==> r is Some && {
                let cache = r->0@;
                &&& cache.len() == self.backend().points().len()
                &&& forall|id: int|
                    0 <= id < cache.len() ==> (#[trigger] cache[id]).0@ == numbers(
                        kept_hits(self.backend(), id as usize, self.size()),
                    ) && cache[id].1 == radius(
                        kept_hits(self.backend(), id as usize, self.size()),
                    )
            },
    {
        match &self.cache {
            None => None,
            Some(c) => {
                assert forall|id: int| 0 <= id < c@.len() implies (#[trigger] c@[id]).0@ == numbers(
                    kept_hits(self.backend(), id as usize, self.size()),
                ) && c@[id].1 == radius(
                    kept_hits(self.backend(), id as usize, self.size()),
                ) by {
                    assert(is_kept(*self.index, id as usize, self.k_rev as nat, c@[id]));
                }
                Some(c)
            },
        }
    }

    /// Whether candidate `c_id` accepts query `q`.
    pub fn accepts(&self, q: &[R], c_id: usize) -> (r: bool)
        requires
            self.wf(),
            c_id < self.backend().points().len(),
        ensures
            r == accepted(
                self.backend(),
                self.size(),
                self.stretch(),
                self.timing(),
                q@,
                c_id,
            ),
    {
        let dqc = sq_l2(q, self.index.vector(c_id));
        match &self.cache {
            Some(cache) => {
                let ghost hits = kept_hits(*self.index, c_id, self.k_rev as nat);
                let entry: &(Vec<usize>, R) = &cache[c_id];
                assert(is_kept(*self.index, c_id, self.k_rev as nat, *entry));
                if !is_less(self.slack.times(entry.1), dqc) {
                    return true;
                }
                let n: usize = entry.0.len();
                let mut i: usize = 0;
                while i < n
                    invariant
                        i <= n,
                        n == hits.len(),
                        entry.0@ == numbers(hits),
                        self.index.valid(),
                        forall|x: int|
                            0 <= x < hits.len() ==> (#[trigger] hits[x]).0
                                < self.index.points().len(),
                        forall|x: int|
                            0 <= x < i ==> {
                                let v = self.index.points()[(#[trigger] hits[x]).0 as int];
                                !(v.len() == q@.len() && less(sq_l2_of(v, q@), tiny::<R>()))
                            },
                        hits == kept_hits(*self.index, c_id, self.k_rev as nat),
                        self.mode == VerifyMode::Cached,
                    decreases n - i,
                {
                    assert(hits[i as int].0 < self.index.points().len());
                    let v = self.index.vector(entry.0[i]);
                    if v.len() == q.len() && is_less(
                        sq_l2(v, q),
                        R::ratio(1, 1_000_000_000_000),
                    ) {
                        assert(among(*self.index, hits, q@)) by {
                            assert(hits[i as int].0 < self.index.points().len());
                        }
                        return true;
                    }
                    i += 1;
                }
                false
            },
            None => {
                let cv = copy_row(self.index.vector(c_id));
                let found = self.index.search(cv.as_slice(), self.k_rev + 1);
                let n: usize = found.len();
                let mut d_k = R::zero();
                let mut i: usize = 0;
                assert(found@.take(0) =~= Seq::empty());
                while i < n
                    invariant
                        i <= n,
                        n == found@.len(),
                        d_k == radius(without(found@.take(i as int), c_id)),
                    decreases n - i,
                {
                    proof {
                        assert(found@.take(i + 1).drop_last() =~= found@.take(i as int));
                        assert(found@.take(i + 1).last() == found@[i as int]);
                    }
                    let (nid, d) = found[i];
                    if nid != c_id {
                        d_k = d;
                    }
                    i += 1;
                }
                assert(found@.take(n as int) =~= found@);
                !is_less(self.slack.times(d_k), dqc)
            },
        }
    }

    /// Keeps the candidates that accept query `q`.
    pub fn filter(&self, q: &[R], cands: &[Found<R>]) -> (r: Vec<Found<R>>)
        requires
            self.wf(),
            forall|i: int|
                0 <= i < cands@.len() ==> (#[trigger] cands@[i]).0 < self.backend().points().len(),
        ensures
            r@ == accepted_only(
                self.backend(),
                self.size(),
                self.stretch(),
                self.timing(),
                q@,
                cands@,
            ),
            r@.len() <= cands@.len(),
    {
        let n: usize = cands.len();
        let mut r: Vec<Found<R>> = Vec::new();
        let mut i: usize = 0;
        assert(cands@.take(0) =~= Seq::empty());
        while i < n
            invariant
                i <= n,
                n == cands@.len(),
                self.wf(),
                forall|i: int|
                    0 <= i < cands@.len() ==> (#[trigger] cands@[i]).0
                        < self.backend().points().len(),
                r@ == accepted_only(
                    self.backend(),
                    self.size(),
                    self.stretch(),
                    self.timing(),
                    q@,
                    cands@.take(i as int),
                ),
                r@.len() <= i,
            decreases n - i,
        {
            proof {
                assert(cands@.take(i + 1).drop_last() =~= cands@.take(i as int));
                assert(cands@.take(i + 1).last() == cands@[i as int]);
            }
            let (id, d) = cands[i];
            assert(cands@[i as int].0 < self.backend().points().len());
            if self.accepts(q, id) {
                r.push((id, d));
            }
            i += 1;
        }
        assert(cands@.take(n as int) =~= cands@);
        r
    }
}

} // verus!
