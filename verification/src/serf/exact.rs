//! Where searches of graphs answer as the scan does.

use vstd::prelude::*;

use crate::scalar::Scalar;
use crate::serf::data::sq_l2_of;
use crate::serf::flat::{flat_hits, in_reach, lemma_swept, swept};
use crate::serf::nsw::{greatest, lemma_nsw_finds, lemma_nsw_hits, nsw_hits, NswParams};
use crate::serf::nsw_post::{kept_hits, key_holds, numbers_below};
use crate::serf::range::Range;
use crate::serf::segment::{
    all_different, by_distance, by_key, by_position, direct, has_rank, ids_between,
    key_order, lemma_key_order, lemma_merged, lemma_part_hits, lemma_parts, lemma_rank_range,
    lemma_tree_width,
    merged, ordered, part_hits, parts, per_node, rank_below, rank_upto, ranks_in, segment_hits,
    tiles, tree_width, Part, Plan,
};
use crate::sorting::{
    ascending, crowded, first_n, lemma_crowded, lemma_same_keys, lemma_stable_sort,
    lemma_stable_sort_contains, lemma_top_k, lemma_top_k_covers, stable_sort, top_k,
};
use crate::spaces::payloads;

verus! {

/// As many hits, and at the same distances.
pub open spec fn same_distances<R: Scalar>(a: Seq<(usize, R)>, b: Seq<(usize, R)>) -> bool {
    &&& a.len() == b.len()
    &&& forall|i: int| 0 <= i < a.len() ==> (#[trigger] a[i]).1.key_of() == b[i].1.key_of()
}

/// The vectors `ids` with their distances, and keyed by these.
pub open spec fn measured<R: Scalar>(
    vectors: Seq<Seq<R>>,
    ids: Seq<u32>,
    q: Seq<R>,
) -> Seq<(u64, (usize, R))> {
    Seq::new(
        ids.len(),
        |i: int|
            {
                let d = sq_l2_of(q, vectors[ids[i] as int]);
                (d.key_of(), (ids[i] as usize, d))
            },
    )
}

/// Every item has the key of its distance.
spec fn own_keys<R: Scalar>(s: Seq<(u64, (usize, R))>) -> bool {
    forall|x: (u64, (usize, R))| #[trigger] s.contains(x) ==> x.0 == x.1.1.key_of()
}

/// Selected items have the keys of their distances.
proof fn lemma_top_keys<R: Scalar>(s: Seq<(u64, (usize, R))>, k: nat, i: int)
    requires
        own_keys(s),
        0 <= i < top_k(s, k).len(),
    ensures
        payloads(top_k(s, k))[i].1.key_of() == top_k(s, k)[i].0,
{
    lemma_top_k(s, k);
    assert(s.contains(top_k(s, k)[i]));
}

/// Hits with different positions are different when keyed by distance.
proof fn lemma_by_distance<R: Scalar>(found: Seq<(usize, R)>)
    requires
        all_different(found),
    ensures
        by_distance(found).no_duplicates(),
        own_keys(by_distance(found)),
        forall|x: (u64, (usize, R))| #[trigger]
            by_distance(found).contains(x) <==> x.0 == x.1.1.key_of() && found.contains(x.1),
{
    let s = by_distance(found);
    assert forall|i: int, j: int| 0 <= i < s.len() && 0 <= j < s.len() && i != j implies s[i]
        != s[j] by {
        if i < j {
            assert(found[i].0 != found[j].0);
        } else {
            assert(found[j].0 != found[i].0);
        }
    }
    assert forall|x: (u64, (usize, R))| #[trigger] s.contains(x) <==> x.0 == x.1.1.key_of()
        && found.contains(x.1) by {
        if s.contains(x) {
            let i = choose|i: int| 0 <= i < s.len() && s[i] == x;
            assert(found[i] == x.1);
        }
        if x.0 == x.1.1.key_of() && found.contains(x.1) {
            let i = choose|i: int| 0 <= i < found.len() && found[i] == x.1;
            assert(s[i] == x);
        }
    }
}

/// Hits by ascending distance keep their distances when the first ones are
/// selected.
proof fn lemma_first_hits<R: Scalar>(found: Seq<(usize, R)>, k: nat)
    requires
        all_different(found),
        ascending(by_distance(found)),
    ensures
        same_distances(first_n(found, k), payloads(top_k(by_distance(found), k))),
{
    let s = by_distance(found);
    let order = stable_sort(s);
    lemma_by_distance(found);
    lemma_stable_sort(s);
    s.lemma_multiset_has_no_duplicates();
    order.lemma_multiset_has_no_duplicates_conv();
    assert forall|x: (u64, (usize, R))| #[trigger] s.contains(x) <==> order.contains(x) by {
        lemma_stable_sort_contains(s, x);
    }
    lemma_same_keys(s, order);
    let a = first_n(found, k);
    let b = payloads(top_k(s, k));
    lemma_top_k(s, k);
    assert forall|i: int| 0 <= i < a.len() implies (#[trigger] a[i]).1.key_of()
        == b[i].1.key_of() by {
        assert(s[i].0 == order[i].0);
        lemma_top_keys(s, k, i);
    }
}

/// In a graph of no more than `2 * m + 1` nodes, a search that is as wide as the
/// graph returns as many hits as a scan of its vectors, and at the same distances.
pub proof fn lemma_nsw_exact<R: Scalar>(
    vectors: Seq<Seq<R>>,
    ids: Seq<u32>,
    params: NswParams,
    q: Seq<R>,
    k: usize,
)
    requires
        ids.no_duplicates(),
        ids.len() <= 0x1_0000_0000,
        ids.len() <= 2 * params.m + 1,
        ids.len() <= greatest(params.ef_search, k),
        params.m >= 1,
        params.ef_construction >= 1,
    ensures
        same_distances(
            nsw_hits(vectors, ids, params, q, k),
            payloads(top_k(measured(vectors, ids, q), k as nat)),
        ),
{
    let found = nsw_hits(vectors, ids, params, q, k);
    let s = by_distance(found);
    let all = measured(vectors, ids, q);
    lemma_nsw_hits(vectors, ids, params, q, k);
    assert(all_different(found));
    lemma_by_distance(found);
    assert forall|i: int, j: int| 0 <= i < all.len() && 0 <= j < all.len() && i != j implies all[i]
        != all[j] by {
        assert(ids[i] != ids[j]);
    }
    assert forall|x: (u64, (usize, R))| #[trigger] s.contains(x) implies all.contains(x) by {
        assert(found.contains(x.1));
        let i = choose|i: int| 0 <= i < found.len() && found[i] == x.1;
        assert(ids.contains(found[i].0 as u32));
        let j = choose|j: int| 0 <= j < ids.len() && ids[j] == found[i].0 as u32;
        assert(all[j] == x);
    }
    assert forall|x: (u64, (usize, R))| #[trigger]
        all.contains(x) && !s.contains(x) implies crowded(s, k as nat, x.0) by {
        let j = choose|j: int| 0 <= j < all.len() && all[j] == x;
        lemma_nsw_finds(vectors, ids, params, q, k, j);
        assert(!found.contains(x.1));
        assert forall|i: int| 0 <= i < s.len() implies s.contains(#[trigger] s[i]) && s[i].0
            <= x.0 by {
            assert(found[i].1.key_of() <= x.0);
        }
        lemma_crowded(s, s, k as nat, x.0);
    }
    lemma_top_k_covers(s, all, k as nat);
    assert(ascending(s)) by {
        assert forall|i: int, j: int| 0 <= i <= j < s.len() implies (#[trigger] s[i]).0 <= (
        #[trigger] s[j]).0 by {
            assert(found[i].1.key_of() <= found[j].1.key_of());
        }
    }
    lemma_first_hits(found, k as nat);
    assert(first_n(found, k as nat) =~= found);
    assert(own_keys(all));
    let b = payloads(top_k(all, k as nat));
    assert forall|i: int| 0 <= i < found.len() implies (#[trigger] found[i]).1.key_of()
        == b[i].1.key_of() by {
        lemma_top_k(s, k as nat);
        lemma_top_keys(s, k as nat, i);
        lemma_top_keys(all, k as nat, i);
        assert(first_n(found, k as nat)[i].1.key_of() == payloads(top_k(s, k as nat))[i].1.key_of());
    }
}

/// What a scan looks at: each vector in the range, once.
proof fn lemma_swept_items<R: Scalar>(
    vectors: Seq<Seq<R>>,
    keys: Seq<R>,
    q: Seq<R>,
    range: Range<R>,
    n: nat,
)
    requires
        n <= vectors.len() <= usize::MAX,
    ensures
        swept(vectors, keys, q, range, n).no_duplicates(),
        forall|j: int|
            0 <= j < swept(vectors, keys, q, range, n).len() ==> (#[trigger] swept(
                vectors,
                keys,
                q,
                range,
                n,
            )[j]).1.0 < n,
    decreases n,
{
    if n > 0 {
        let m = (n - 1) as nat;
        lemma_swept_items(vectors, keys, q, range, m);
        let a = swept(vectors, keys, q, range, m);
        let b = swept(vectors, keys, q, range, n);
        assert forall|j: int| 0 <= j < b.len() implies (#[trigger] b[j]).1.0 < n by {
            if j < a.len() {
                assert(a[j].1.0 < m);
            }
        }
        assert forall|i: int, j: int| 0 <= i < b.len() && 0 <= j < b.len() && i != j implies b[i]
            != b[j] by {
            if i < a.len() && j < a.len() {
                assert(a[i] != a[j]);
            } else if i < a.len() {
                assert(a[i].1.0 < m);
            } else if j < a.len() {
                assert(a[j].1.0 < m);
            }
        }
    }
}

/// A scan looks at the vectors in the range, with their distances.
proof fn lemma_swept_holds<R: Scalar>(
    vectors: Seq<Seq<R>>,
    keys: Seq<R>,
    q: Seq<R>,
    range: Range<R>,
    x: (u64, (usize, R)),
)
    requires
        vectors.len() <= usize::MAX,
    ensures
        swept(vectors, keys, q, range, vectors.len()).contains(x) <==> in_reach(
            vectors,
            keys,
            q,
            range,
            x.1,
        ) && x.0 == x.1.1.key_of(),
{
    let all = swept(vectors, keys, q, range, vectors.len());
    lemma_swept(vectors, keys, q, range, vectors.len());
    if all.contains(x) {
        let j = choose|j: int| 0 <= j < all.len() && all[j] == x;
        assert(in_reach(vectors, keys, q, range, all[j].1));
    }
    if in_reach(vectors, keys, q, range, x.1) && x.0 == x.1.1.key_of() {
        let i = x.1.0 as int;
        assert(all.contains(
            (sq_l2_of(q, vectors[i]).key_of(), (i as usize, sq_l2_of(q, vectors[i]))),
        ));
    }
}

/// Filtering keeps hits different and by ascending distance.
proof fn lemma_filtered<R: Scalar>(found: Seq<(usize, R)>, keep: spec_fn((usize, R)) -> bool)
    requires
        all_different(found),
        ascending(by_distance(found)),
    ensures
        all_different(found.filter(keep)),
        ascending(by_distance(found.filter(keep))),
        forall|x: (usize, R)| #[trigger]
            found.filter(keep).contains(x) <==> found.contains(x) && keep(x),
    decreases found.len(),
{
    reveal(Seq::filter);
    if found.len() > 0 {
        let t = found.drop_last();
        let x = found.last();
        assert forall|i: int, j: int| 0 <= i < j < t.len() implies (#[trigger] t[i]).0 != (
        #[trigger] t[j]).0 by {
            assert(found[i].0 != found[j].0);
        }
        assert forall|i: int, j: int| 0 <= i <= j < t.len() implies (
        #[trigger] by_distance(t)[i]).0 <= (#[trigger] by_distance(t)[j]).0 by {
            assert(by_distance(found)[i].0 <= by_distance(found)[j].0);
        }
        lemma_filtered(t, keep);
        let rest = t.filter(keep);
        let all = found.filter(keep);
        assert forall|y: (usize, R)| #[trigger] all.contains(y) <==> found.contains(y) && keep(y) by {
            if all.contains(y) {
                let i = choose|i: int| 0 <= i < all.len() && all[i] == y;
                if i < rest.len() {
                    assert(rest[i] == y);
                    assert(rest.contains(y));
                    let j = choose|j: int| 0 <= j < t.len() && t[j] == y;
                    assert(found[j] == y);
                } else {
                    assert(found[found.len() - 1] == y);
                }
            }
            if found.contains(y) && keep(y) {
                let j = choose|j: int| 0 <= j < found.len() && found[j] == y;
                if j < t.len() {
                    assert(t[j] == y);
                    assert(t.contains(y));
                    assert(rest.contains(y));
                    let i = choose|i: int| 0 <= i < rest.len() && rest[i] == y;
                    assert(all[i] == y);
                } else {
                    assert(all[rest.len() as int] == y);
                }
            }
        }
        assert forall|i: int, j: int| 0 <= i < j < all.len() implies (#[trigger] all[i]).0 != (
        #[trigger] all[j]).0 by {
            assert(all[i] == rest[i]);
            if j < rest.len() {
                assert(all[j] == rest[j]);
            } else {
                assert(rest.contains(rest[i]));
                let u = choose|u: int| 0 <= u < t.len() && t[u] == rest[i];
                assert(found[u].0 != found[found.len() - 1].0);
            }
        }
        assert forall|i: int, j: int| 0 <= i <= j < all.len() implies (
        #[trigger] by_distance(all)[i]).0 <= (#[trigger] by_distance(all)[j]).0 by {
            if j < rest.len() {
                assert(by_distance(rest)[i].0 <= by_distance(rest)[j].0);
            } else if i < rest.len() {
                assert(rest.contains(rest[i]));
                let u = choose|u: int| 0 <= u < t.len() && t[u] == rest[i];
                assert(by_distance(found)[u].0 <= by_distance(found)[found.len() - 1].0);
            }
        }
    }
}

/// With a graph of no more than `2 * m + 1` nodes, filtering the results of a
/// search that asks for all of them gives as many hits as the scan, and at the same
/// distances.
pub proof fn lemma_kept_exact<R: Scalar>(
    vectors: Seq<Seq<R>>,
    keys: Seq<R>,
    params: NswParams,
    q: Seq<R>,
    range: Range<R>,
    wide: usize,
    k: nat,
)
    requires
        vectors.len() <= u32::MAX,
        vectors.len() <= 2 * params.m + 1,
        vectors.len() <= wide,
        params.m >= 1,
        params.ef_construction >= 1,
    ensures
        same_distances(
            kept_hits(
                keys,
                range,
                nsw_hits(vectors, numbers_below(vectors.len()), params, q, wide),
                k,
            ),
            flat_hits(vectors, keys, q, range, k),
        ),
{
    let n = vectors.len();
    let ids = numbers_below(n);
    let pulled = nsw_hits(vectors, ids, params, q, wide);
    let test = key_holds(keys, range);
    let kept = pulled.filter(test);
    let s = by_distance(kept);
    let all = swept(vectors, keys, q, range, n);
    assert(ids.no_duplicates());
    lemma_nsw_hits(vectors, ids, params, q, wide);
    assert(ascending(by_distance(pulled))) by {
        assert forall|i: int, j: int| 0 <= i <= j < pulled.len() implies (
        #[trigger] by_distance(pulled)[i]).0 <= (#[trigger] by_distance(pulled)[j]).0 by {
            assert(pulled[i].1.key_of() <= pulled[j].1.key_of());
        }
    }
    assert(all_different(pulled));
    lemma_filtered(pulled, test);
    lemma_by_distance(kept);
    lemma_swept_items(vectors, keys, q, range, n);
    assert forall|x: (u64, (usize, R))| #[trigger] s.contains(x) implies all.contains(x) by {
        assert(kept.contains(x.1));
        let i = choose|i: int| 0 <= i < pulled.len() && pulled[i] == x.1;
        assert(ids.contains(pulled[i].0 as u32));
        lemma_swept_holds(vectors, keys, q, range, x);
    }
    assert forall|x: (u64, (usize, R))| #[trigger]
        all.contains(x) && !s.contains(x) implies crowded(s, k, x.0) by {
        lemma_swept_holds(vectors, keys, q, range, x);
        let j = x.1.0 as int;
        lemma_nsw_finds(vectors, ids, params, q, wide, j);
        if !pulled.contains(x.1) {
            assert forall|i: int| 0 <= i < pulled.len() implies (#[trigger] pulled[i]).0 < n
                && pulled[i].0 != x.1.0 by {
                assert(ids.contains(pulled[i].0 as u32));
                assert(pulled.contains(pulled[i]));
            }
            lemma_found_all(pulled, n, x.1.0);
        }
        assert(kept.contains(x.1));
    }
    lemma_top_k_covers(s, all, k);
    lemma_first_hits(kept, k);
    assert(own_keys(all)) by {
        assert forall|x: (u64, (usize, R))| #[trigger] all.contains(x) implies x.0
            == x.1.1.key_of() by {
            lemma_swept_holds(vectors, keys, q, range, x);
        }
    }
    let a = first_n(kept, k);
    let b = flat_hits(vectors, keys, q, range, k);
    assert forall|i: int| 0 <= i < a.len() implies (#[trigger] a[i]).1.key_of()
        == b[i].1.key_of() by {
        lemma_top_keys(s, k, i);
        lemma_top_keys(all, k, i);
        assert(a[i].1.key_of() == payloads(top_k(s, k))[i].1.key_of());
    }
}

/// Hits with different positions below `n` are fewer than `n` where one is missing.
proof fn lemma_found_all<R>(found: Seq<(usize, R)>, n: nat, missing: usize)
    requires
        all_different(found),
        n <= usize::MAX,
        missing < n,
        forall|i: int|
            0 <= i < found.len() ==> (#[trigger] found[i]).0 < n && found[i].0 != missing,
    ensures
        found.len() < n,
{
    let ids = Seq::new(found.len(), |i: int| found[i].0).push(missing);
    assert(ids.no_duplicates()) by {
        assert forall|i: int, j: int| 0 <= i < ids.len() && 0 <= j < ids.len() && i != j implies
            ids[i] != ids[j] by {
            if i < found.len() && j < found.len() {
                if i < j {
                    assert(found[i].0 != found[j].0);
                } else {
                    assert(found[j].0 != found[i].0);
                }
            }
        }
    }
    let below = Seq::new(n, |i: int| i as usize);
    ids.unique_seq_to_set();
    vstd::seq_lib::seq_to_set_is_finite(below);
    assert forall|id: usize| ids.to_set().contains(id) implies below.to_set().contains(id) by {
        let i = choose|i: int| 0 <= i < ids.len() && ids[i] == id;
        assert(id < n);
        assert(below[id as int] == id);
        assert(below.contains(id));
    }
    vstd::set_lib::lemma_len_subset(ids.to_set(), below.to_set());
    below.lemma_cardinality_of_set();
}

/// The hit of the vector with rank `at`.
spec fn ranked_hit<R: Scalar>(plan: Plan<R>, q: Seq<R>, at: int) -> (usize, R) {
    let id = plan.order[at].0;
    (id as usize, sq_l2_of(q, plan.vectors[id as int]))
}

/// What the parts contribute holds the vector with a rank among them, or else
/// `per` others that are no farther; these are returned.
proof fn lemma_merged_finds<R: Scalar>(
    plan: Plan<R>,
    q: Seq<R>,
    per: usize,
    p: Seq<Part>,
    a: int,
    b: int,
    at: int,
) -> (some: Seq<(usize, R)>)
    requires
        ordered(plan.order, plan.vectors.len()),
        plan.order.len() <= u32::MAX,
        plan.order.len() <= 2 * plan.params.m + 1,
        plan.order.len() <= greatest(plan.params.ef_search, per),
        plan.params.m >= 1,
        plan.params.ef_construction >= 1,
        tiles(p, a, b),
        0 <= a <= at < b <= plan.order.len(),
    ensures
        merged(plan, q, per, p).contains(ranked_hit(plan, q, at)) || (some.len() == per
            && all_different(some) && forall|i: int|
            0 <= i < some.len() ==> merged(plan, q, per, p).contains(#[trigger] some[i])
                && some[i].1.key_of() <= ranked_hit(plan, q, at).1.key_of()),
    decreases p.len(),
{
    let h = ranked_hit(plan, q, at);
    let part = p.last();
    let one = merged(plan, q, per, p.drop_last());
    let two = part_hits(plan, q, per, part);
    let found = merged(plan, q, per, p);
    assert(found =~= one + two);
    if at < part.first() {
        let some = lemma_merged_finds(plan, q, per, p.drop_last(), a, part.first(), at);
        if one.contains(h) {
            let i = choose|i: int| 0 <= i < one.len() && one[i] == h;
            assert(found[i] == h);
        } else {
            assert forall|i: int| 0 <= i < some.len() implies found.contains(#[trigger] some[i])
                && some[i].1.key_of() <= h.1.key_of() by {
                assert(one.contains(some[i]));
                let j = choose|j: int| 0 <= j < one.len() && one[j] == some[i];
                assert(found[j] == some[i]);
            }
        }
        some
    } else {
        lemma_tiles_low(p.drop_last(), a, part.first());
        lemma_part_hits(plan, q, per, part);
        match part {
            Part::Node { idx, lo, hi } => {
                let ids = ids_between(plan.order, lo as int, hi as int);
                lemma_nsw_finds(plan.vectors, ids, plan.params, q, per, at - lo);
                assert(ids[at - lo] == plan.order[at].0);
            },
            Part::Rank { at: only } => {
                assert(two[0] == h);
            },
        }
        if two.contains(h) {
            let i = choose|i: int| 0 <= i < two.len() && two[i] == h;
            assert(found[one.len() + i] == h);
        } else {
            assert forall|i: int| 0 <= i < two.len() implies found.contains(#[trigger] two[i])
                && two[i].1.key_of() <= h.1.key_of() by {
                assert(found[one.len() + i] == two[i]);
            }
        }
        two
    }
}

/// Parts that follow one another do not end before they begin.
proof fn lemma_tiles_low(p: Seq<Part>, a: int, b: int)
    requires
        tiles(p, a, b),
    ensures
        a <= b,
    decreases p.len(),
{
    if p.len() > 0 {
        lemma_tiles_low(p.drop_last(), a, p.last().first());
    }
}

/// Every vector has a rank.
proof fn lemma_has_a_rank<R: Scalar>(keys: Seq<R>, id: usize) -> (at: int)
    requires
        id < keys.len() <= u32::MAX,
    ensures
        0 <= at < key_order(keys).len(),
        key_order(keys)[at].0 == id,
{
    let all = by_key(keys);
    let sorted = stable_sort(all);
    assert(all.contains(all[id as int]));
    lemma_stable_sort_contains(all, all[id as int]);
    let at = choose|at: int| 0 <= at < sorted.len() && sorted[at] == all[id as int];
    assert(key_order(keys)[at] == sorted[at].1);
    at
}

/// A vector is in the range if and only if its rank is.
proof fn lemma_reach_ranks<R: Scalar>(
    plan: Plan<R>,
    keys: Seq<R>,
    q: Seq<R>,
    range: Range<R>,
    x: (usize, R),
)
    requires
        plan.vectors.len() == keys.len() <= u32::MAX,
        plan.order == key_order(keys),
    ensures
        in_reach(plan.vectors, keys, q, range, x) <==> ranks_in(
            plan,
            q,
            x,
            rank_below(plan.order, range.lo) as int,
            rank_upto(plan.order, range.hi) as int,
        ),
{
    let rl = rank_below(plan.order, range.lo) as int;
    let rr = rank_upto(plan.order, range.hi) as int;
    lemma_key_order(keys);
    lemma_rank_range(plan.order, range, keys.len());
    if in_reach(plan.vectors, keys, q, range, x) {
        let at = lemma_has_a_rank(keys, x.0);
        assert(plan.order[at].1 == keys[plan.order[at].0 as int]);
        assert(has_rank(plan, q, x, at));
    }
    if ranks_in(plan, q, x, rl, rr) {
        let at = choose|at: int| rl <= at < rr && #[trigger] has_rank(plan, q, x, at);
        assert(plan.order[at].1 == keys[plan.order[at].0 as int]);
        assert(range.holds(plan.order[at].1));
    }
}

/// Items that leave out nothing that matters give the distances of the scan.
proof fn lemma_select_exact<R: Scalar>(
    vectors: Seq<Seq<R>>,
    keys: Seq<R>,
    q: Seq<R>,
    range: Range<R>,
    s: Seq<(u64, (usize, R))>,
    k: nat,
)
    requires
        vectors.len() <= usize::MAX,
        s.no_duplicates(),
        forall|x: (u64, (usize, R))| #[trigger]
            s.contains(x) ==> swept(vectors, keys, q, range, vectors.len()).contains(x),
        forall|x: (u64, (usize, R))| #[trigger]
            swept(vectors, keys, q, range, vectors.len()).contains(x) && !s.contains(x) ==> crowded(
                s,
                k,
                x.0,
            ),
    ensures
        same_distances(payloads(top_k(s, k)), flat_hits(vectors, keys, q, range, k)),
{
    let all = swept(vectors, keys, q, range, vectors.len());
    lemma_swept_items(vectors, keys, q, range, vectors.len());
    lemma_top_k_covers(s, all, k);
    assert forall|x: (u64, (usize, R))| #[trigger] all.contains(x) implies x.0 == x.1.1.key_of() by {
        lemma_swept_holds(vectors, keys, q, range, x);
    }
    assert(own_keys(all));
    assert(own_keys(s));
    let a = payloads(top_k(s, k));
    let b = payloads(top_k(all, k));
    assert forall|i: int| 0 <= i < a.len() implies (#[trigger] a[i]).1.key_of()
        == b[i].1.key_of() by {
        lemma_top_keys(s, k, i);
        lemma_top_keys(all, k, i);
        assert(top_k(s, k)[i].0 == top_k(all, k)[i].0);
    }
}

/// Hits in the order of their positions are the same hits.
proof fn lemma_by_position<R>(found: Seq<(usize, R)>)
    requires
        all_different(found),
    ensures
        all_different(payloads(stable_sort(by_position(found)))),
        forall|x: (usize, R)| #[trigger]
            payloads(stable_sort(by_position(found))).contains(x) <==> found.contains(x),
{
    let a = by_position(found);
    let sorted = stable_sort(a);
    let listed = payloads(sorted);
    lemma_stable_sort(a);
    assert(a.no_duplicates()) by {
        assert forall|i: int, j: int| 0 <= i < a.len() && 0 <= j < a.len() && i != j implies a[i]
            != a[j] by {
            if i < j {
                assert(found[i].0 != found[j].0);
            } else {
                assert(found[j].0 != found[i].0);
            }
        }
    }
    a.lemma_multiset_has_no_duplicates();
    sorted.lemma_multiset_has_no_duplicates_conv();
    assert forall|i: int| 0 <= i < listed.len() implies found.contains(#[trigger] listed[i])
        && sorted[i].0 == listed[i].0 by {
        assert(sorted.contains(sorted[i]));
        lemma_stable_sort_contains(a, sorted[i]);
        let j = choose|j: int| 0 <= j < a.len() && a[j] == sorted[i];
        assert(found[j] == listed[i]);
    }
    assert forall|x: (usize, R)| #[trigger] listed.contains(x) <==> found.contains(x) by {
        if listed.contains(x) {
            let i = choose|i: int| 0 <= i < listed.len() && listed[i] == x;
            assert(found.contains(listed[i]));
        }
        if found.contains(x) {
            let j = choose|j: int| 0 <= j < found.len() && found[j] == x;
            assert(a.contains(a[j]));
            lemma_stable_sort_contains(a, a[j]);
            let i = choose|i: int| 0 <= i < sorted.len() && sorted[i] == a[j];
            assert(listed[i] == x);
        }
    }
    assert forall|i: int, j: int| 0 <= i < j < listed.len() implies (#[trigger] listed[i]).0 != (
    #[trigger] listed[j]).0 by {
        assert(sorted[i] != sorted[j]);
        assert(found.contains(listed[i]) && found.contains(listed[j]));
        let x = choose|x: int| 0 <= x < found.len() && found[x] == listed[i];
        let y = choose|y: int| 0 <= y < found.len() && found[y] == listed[j];
        assert(sorted[i].0 == listed[i].0 && sorted[j].0 == listed[j].0);
        if x < y {
            assert(found[x].0 != found[y].0);
        } else if y < x {
            assert(found[y].0 != found[x].0);
        }
    }
}

/// Over no more than `2 * m + 1` vectors, a tree of graphs whose searches are as
/// wide as there are vectors returns as many hits as the scan, and at the same
/// distances.
pub proof fn lemma_segment_exact<R: Scalar>(
    plan: Plan<R>,
    keys: Seq<R>,
    q: Seq<R>,
    range: Range<R>,
    k: usize,
)
    requires
        plan.vectors.len() == keys.len() <= u32::MAX,
        plan.order == key_order(keys),
        4 * keys.len() <= usize::MAX,
        keys.len() <= 2 * plan.params.m + 1,
        keys.len() <= greatest(plan.params.ef_search, k),
        plan.params.m >= 1,
        plan.params.ef_construction >= 1,
    ensures
        same_distances(
            segment_hits(plan, tree_width(keys.len(), 1), q, range, k),
            flat_hits(plan.vectors, keys, q, range, k as nat),
        ),
{
    let n = keys.len();
    let width = tree_width(n, 1);
    let rl = rank_below(plan.order, range.lo);
    let rr = rank_upto(plan.order, range.hi);
    let found = segment_hits(plan, width, q, range, k);
    let all = swept(plan.vectors, keys, q, range, n);
    lemma_key_order(keys);
    lemma_rank_range(plan.order, range, n);
    lemma_tree_width(n, 1);
    assert forall|x: (u64, (usize, R))| #[trigger] all.contains(x) <==> x.0 == x.1.1.key_of()
        && ranks_in(plan, q, x.1, rl as int, rr as int) by {
        lemma_swept_holds(plan.vectors, keys, q, range, x);
        lemma_reach_ranks(plan, keys, q, range, x.1);
    }
    if rr <= rl {
        let none: Seq<(u64, (usize, R))> = Seq::empty();
        lemma_select_exact(plan.vectors, keys, q, range, none, k as nat);
        lemma_top_k(none, k as nat);
        assert(found =~= payloads(top_k(none, k as nat)));
    } else if rr - rl <= plan.leaf {
        let s = direct(plan, q, rl as int, rr as int);
        assert(s.no_duplicates()) by {
            assert forall|i: int, j: int| 0 <= i < s.len() && 0 <= j < s.len() && i != j implies s[i]
                != s[j] by {
                if i < j {
                    assert(plan.order[rl + i].0 != plan.order[rl + j].0);
                } else {
                    assert(plan.order[rl + j].0 != plan.order[rl + i].0);
                }
            }
        }
        assert forall|x: (u64, (usize, R))| #[trigger] s.contains(x) implies all.contains(x) by {
            let i = choose|i: int| 0 <= i < s.len() && s[i] == x;
            assert(has_rank(plan, q, x.1, rl + i));
        }
        assert forall|x: (u64, (usize, R))| #[trigger] all.contains(x) implies s.contains(x) by {
            let at = choose|at: int|
                rl as int <= at < rr as int && #[trigger] has_rank(plan, q, x.1, at);
            assert(s[at - rl] == x);
        }
        lemma_select_exact(plan.vectors, keys, q, range, s, k as nat);
    } else {
        let p = parts(n, plan.leaf, 1, 0, width, rl, rr);
        let per = per_node(plan.params, k);
        let raw = merged(plan, q, per, p);
        let listed = payloads(stable_sort(by_position(raw)));
        let s = by_distance(listed);
        lemma_parts(n, plan.leaf, 1, 0, width, rl, rr);
        lemma_merged(plan, q, per, p, rl as int, rr as int);
        lemma_by_position(raw);
        lemma_by_distance(listed);
        assert forall|x: (u64, (usize, R))| #[trigger] s.contains(x) implies all.contains(x) by {
            assert(listed.contains(x.1));
            assert(raw.contains(x.1));
            let i = choose|i: int| 0 <= i < raw.len() && raw[i] == x.1;
            assert(ranks_in(plan, q, raw[i], rl as int, rr as int));
        }
        assert forall|x: (u64, (usize, R))| #[trigger]
            all.contains(x) && !s.contains(x) implies crowded(s, k as nat, x.0) by {
            let at = choose|at: int|
                rl as int <= at < rr as int && #[trigger] has_rank(plan, q, x.1, at);
            let some = lemma_merged_finds(plan, q, per, p, rl as int, rr as int, at);
            assert(ranked_hit(plan, q, at) == x.1);
            assert(!listed.contains(x.1));
            assert(!raw.contains(x.1));
            let keyed = by_distance(some);
            lemma_by_distance(some);
            assert forall|i: int| 0 <= i < keyed.len() implies s.contains(#[trigger] keyed[i])
                && keyed[i].0 <= x.0 by {
                assert(raw.contains(some[i]));
                assert(listed.contains(some[i]));
            }
            lemma_crowded(s, keyed, k as nat, x.0);
        }
        lemma_select_exact(plan.vectors, keys, q, range, s, k as nat);
        assert(found == payloads(top_k(s, k as nat)));
    }
}

} // verus!
