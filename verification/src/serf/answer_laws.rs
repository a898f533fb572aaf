//! The answers to range searches are complete.

use vstd::prelude::*;

use crate::overlap::found_ids;
use crate::scalar::{less, Fixed, Scalar};
use crate::serf::data::{sq_l2_of, Point, Query};
use crate::serf::flat::{flat_hits, lemma_swept, swept};
use crate::serf::linear::{linear_hits, scanned};
use crate::serf::nsw_post::{kept_hits, key_holds};
use crate::serf::post_filter::wanted;
use crate::serf::range::Range;
use crate::serf::serf::entry_of;
use crate::serf::Hit;
use crate::sorting::{first_n, lemma_stable_sort, lemma_top_k, lemma_top_k_smallest, top_k};

verus! {

/// The number of the first `n` keys that lie in the range.
pub open spec fn count_in<R: Scalar>(keys: Seq<R>, range: Range<R>, n: nat) -> nat
    decreases n,
{
    if n == 0 {
        0
    } else {
        count_in(keys, range, (n - 1) as nat) + if !less(keys[n - 1], range.lo) && !less(
            range.hi,
            keys[n - 1],
        ) {
            1nat
        } else {
            0
        }
    }
}

proof fn lemma_swept_count<R: Scalar>(
    vectors: Seq<Seq<R>>,
    keys: Seq<R>,
    q: Seq<R>,
    range: Range<R>,
    n: nat,
)
    requires
        n <= usize::MAX,
    ensures
        swept(vectors, keys, q, range, n).len() == count_in(keys, range, n),
        forall|i: int|
            0 <= i < swept(vectors, keys, q, range, n).len() ==> (#[trigger] swept(
                vectors,
                keys,
                q,
                range,
                n,
            )[i]).1.0 < n,
        forall|i: int, j: int|
            0 <= i < j < swept(vectors, keys, q, range, n).len() ==> (#[trigger] swept(
                vectors,
                keys,
                q,
                range,
                n,
            )[i]).1.0 < (#[trigger] swept(vectors, keys, q, range, n)[j]).1.0,
    decreases n,
{
    if n > 0 {
        lemma_swept_count(vectors, keys, q, range, (n - 1) as nat);
    }
}

/// A flat search reports as many vectors as were asked for, or all whose key lies in the
/// range, and each of them once.
pub proof fn lemma_flat_complete<R: Scalar>(
    vectors: Seq<Seq<R>>,
    keys: Seq<R>,
    q: Seq<R>,
    range: Range<R>,
    k: nat,
)
    requires
        vectors.len() <= usize::MAX,
    ensures
        ({
            let found = flat_hits(vectors, keys, q, range, k);
            let all = count_in(keys, range, vectors.len());
            &&& found.len() == if k <= all {
                k
            } else {
                all
            }
            &&& found_ids(found).no_duplicates()
        }),
{
    let all = swept(vectors, keys, q, range, vectors.len());
    let top = top_k(all, k);
    let found = flat_hits(vectors, keys, q, range, k);
    lemma_swept_count(vectors, keys, q, range, vectors.len());
    lemma_swept(vectors, keys, q, range, vectors.len());
    lemma_top_k(all, k);
    lemma_stable_sort(all);
    let sorted = crate::sorting::stable_sort(all);
    assert(all.no_duplicates()) by {
        assert forall|i: int, j: int|
            0 <= i < all.len() && 0 <= j < all.len() && i != j implies all[i] != all[j] by {
            if i < j {
                assert(all[i].1.0 < all[j].1.0);
            } else {
                assert(all[j].1.0 < all[i].1.0);
            }
        }
    }
    all.lemma_multiset_has_no_duplicates();
    sorted.lemma_multiset_has_no_duplicates_conv();
    let ids = found_ids(found);
    assert forall|i: int, j: int|
        0 <= i < ids.len() && 0 <= j < ids.len() && i != j implies ids[i] != ids[j] by {
        assert(all.contains(top[i]) && all.contains(top[j]));
        let x = choose|x: int| 0 <= x < all.len() && all[x] == top[i];
        let y = choose|y: int| 0 <= y < all.len() && all[y] == top[j];
        assert(sorted[i] != sorted[j]);
        if x < y {
            assert(all[x].1.0 < all[y].1.0);
        } else {
            assert(all[y].1.0 < all[x].1.0);
        }
    }
}

proof fn lemma_scanned_holds<R: Scalar>(points: Seq<Point<R>>, query: Query<R>, n: nat, i: int)
    requires
        0 <= i < n <= points.len(),
        query.admits(points[i]),
    ensures
        scanned(points, query, n).contains(
            (sq_l2_of(points[i].vec@, query.vec@), points[i].id),
        ),
    decreases n,
{
    let rest = scanned(points, query, (n - 1) as nat);
    let now = scanned(points, query, n);
    let x = (sq_l2_of(points[i].vec@, query.vec@), points[i].id);
    if i < n - 1 {
        lemma_scanned_holds(points, query, (n - 1) as nat, i);
        let j = choose|j: int| 0 <= j < rest.len() && rest[j] == x;
        assert(now[j] == x);
    } else {
        assert(now[now.len() - 1] == x);
    }
}

/// A scan finds the nearest of the points that the query asks for: none that it leaves
/// out is nearer than one that it finds.
pub proof fn lemma_linear_nearest<R: Scalar>(points: Seq<Point<R>>, query: Query<R>, k: nat, i: int)
    requires
        0 <= i < points.len(),
        query.admits(points[i]),
    ensures
        ({
            let found = linear_hits(points, query, k);
            let own = Hit { id: points[i].id, dist: sq_l2_of(points[i].vec@, query.vec@) };
            found.contains(own) || forall|j: int|
                0 <= j < found.len() ==> (#[trigger] found[j]).dist.key_of() <= own.dist.key_of()
        }),
{
    let list = scanned(points, query, points.len());
    let keyed = crate::serf::graph::by_distance(list);
    let top = top_k(keyed, k);
    let found = linear_hits(points, query, k);
    let own = Hit { id: points[i].id, dist: sq_l2_of(points[i].vec@, query.vec@) };
    lemma_scanned_holds(points, query, points.len(), i);
    lemma_top_k(keyed, k);
    let p = choose|p: int| 0 <= p < list.len() && list[p] == (own.dist, own.id);
    let item = keyed[p];
    assert(keyed.contains(item));
    if top.contains(item) {
        let j = choose|j: int| 0 <= j < top.len() && top[j] == item;
        assert(found[j] == own);
    } else {
        assert forall|j: int| 0 <= j < found.len() implies (#[trigger] found[j]).dist.key_of()
            <= own.dist.key_of() by {
            lemma_top_k_smallest(keyed, k, j, item);
            assert(keyed.contains(top[j]));
            let y = choose|y: int| 0 <= y < keyed.len() && keyed[y] == top[j];
            assert(found[j].dist == list[y].0);
        }
    }
}

/// Filtering keeps every point found that the query asks for.
pub proof fn lemma_wanted_complete<R: Scalar>(
    points: Seq<Point<R>>,
    query: Query<R>,
    found: Seq<(u64, u32)>,
    i: int,
)
    requires
        0 <= i < found.len(),
        query.admits(points[found[i].1 as int]),
    ensures
        wanted(points, query, found).contains(
            Hit {
                id: found[i].1,
                dist: sq_l2_of(points[found[i].1 as int].vec@, query.vec@),
            },
        ),
    decreases found.len(),
{
    let t = found.drop_last();
    let rest = wanted(points, query, t);
    let now = wanted(points, query, found);
    let own = Hit { id: found[i].1, dist: sq_l2_of(points[found[i].1 as int].vec@, query.vec@) };
    if i < t.len() {
        lemma_wanted_complete(points, query, t, i);
        assert(t[i] == found[i]);
        let j = choose|j: int| 0 <= j < rest.len() && rest[j] == own;
        assert(now[j] == own);
    } else {
        assert(now[now.len() - 1] == own);
    }
}

/// Filtering after a search keeps the first `k` of the vectors found whose key lies in
/// the range, so that one is only left out where there are `k`.
pub proof fn lemma_kept_complete<R: Scalar>(
    keys: Seq<R>,
    range: Range<R>,
    pulled: Seq<(usize, R)>,
    k: nat,
    i: int,
)
    requires
        0 <= i < pulled.len(),
        !less(keys[pulled[i].0 as int], range.lo),
        !less(range.hi, keys[pulled[i].0 as int]),
    ensures
        kept_hits(keys, range, pulled, k).contains(pulled[i]) || kept_hits(
            keys,
            range,
            pulled,
            k,
        ).len() == k,
{
    let test = key_holds(keys, range);
    let all = pulled.filter(test);
    pulled.lemma_filter_contains(test, i);
    let j = choose|j: int| 0 <= j < all.len() && all[j] == pulled[i];
    if j < k {
        assert(first_n(all, k)[j] == pulled[i]);
    }
}

/// A guided search starts at the middle of the range: where positions are attributes, at
/// the point whose position is nearest to it.
pub proof fn lemma_entry_middle(query: Query<Fixed>, n: nat)
    requires
        0 < n <= 0x7FFF_FFFF,
        0 <= query.lo.raw <= query.hi.raw <= 0x1_0000 * (n - 1),
    ensures
        ({
            let entry = entry_of(query, n);
            &&& 0 <= entry < n
            &&& -0x1_0001 <= 0x2_0000 * entry - (query.lo.raw + query.hi.raw) <= 0x1_0001
        }),
{
    let sum = query.lo.plus_of(query.hi);
    let half = Fixed::ratio_of(1, 2);
    assert(half.raw == 0x8000);
    assert(sum.raw == query.lo.raw + query.hi.raw);
    assert(sum.raw * half.raw == 0x8000 * sum.raw);
    crate::exact::lemma_times(sum, half);
    let middle = sum.times_of(half);
    assert(0x2_0000 * middle.raw <= 0x1_0000 * sum.raw < 0x2_0000 * middle.raw + 0x2_0000);
}

} // verus!
