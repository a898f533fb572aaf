//! Which candidates accept a query, and how far distances are changed.

use vstd::prelude::*;

use crate::exact::{close, lemma_over, lemma_times};
use crate::linalg::sq_l2_of;
use crate::ranking_laws::{least_keys, lemma_least_keys, numbered};
use crate::rknn_verified::verify::{
    accepted, accepted_only, lemma_accepted_only, lemma_exact_modes, reach_of, settled, without,
    VerifyMode,
};
use crate::rknn_verified::{
    jittered, keyed, nearest_found, scan, scrambled, FlatL2Index, Found, NnIndex,
};
use crate::scalar::{less, whole, Fixed, Scalar};
use crate::sorting::{first_n, top_k};
use crate::spaces::payloads;

verus! {

/// A scan finds the vectors nearest to a query, the nearest one first, and reports
/// their distances.
pub proof fn lemma_nearest_found<R: Scalar>(q: Seq<R>, points: Seq<Seq<R>>, k: nat)
    requires
        points.len() <= usize::MAX,
    ensures
        ({
            let found = nearest_found(q, points, k);
            &&& least_keys(
                Seq::new(found.len(), |i: int| found[i].0 as int),
                |i: int| sq_l2_of(q, points[i]).key_of(),
                points.len(),
                k,
            )
            &&& forall|i: int|
                0 <= i < found.len() ==> (#[trigger] found[i]).1 == sq_l2_of(
                    q,
                    points[found[i].0 as int],
                )
        }),
{
    let all = keyed(scan(q, points));
    let id = |x: Found<R>| x.0 as int;
    let keys = |i: int| sq_l2_of(q, points[i]).key_of();
    assert(numbered(all, id));
    lemma_least_keys(all, id, keys, k);
    let found = nearest_found(q, points, k);
    assert(found == payloads(top_k(all, k)));
    assert(Seq::new(found.len(), |i: int| found[i].0 as int) =~= Seq::new(
        found.len(),
        |i: int| id(found[i]),
    ));
    assert forall|i: int| 0 <= i < found.len() implies (#[trigger] found[i]).1 == sq_l2_of(
        q,
        points[found[i].0 as int],
    ) by {
        assert(found[i] == all[id(found[i])].1);
    }
}

/// Verification keeps exactly the candidates that accept the query.
pub proof fn lemma_accepted_exactly<R: Scalar, I: NnIndex<R>>(
    index: I,
    k: nat,
    slack: R,
    mode: VerifyMode,
    q: Seq<R>,
    cands: Seq<Found<R>>,
    i: int,
)
    requires
        0 <= i < cands.len(),
    ensures
        accepted_only(index, k, slack, mode, q, cands).contains(cands[i]) <==> accepted(
            index,
            k,
            slack,
            mode,
            q,
            cands[i].0,
        ),
    decreases cands.len(),
{
    let now = accepted_only(index, k, slack, mode, q, cands);
    lemma_accepted_only(index, k, slack, mode, q, cands);
    if now.contains(cands[i]) {
        let j = choose|j: int| 0 <= j < now.len() && now[j] == cands[i];
        assert(accepted(index, k, slack, mode, q, now[j].0));
    }
    if accepted(index, k, slack, mode, q, cands[i].0) {
        let t = cands.drop_last();
        let rest = accepted_only(index, k, slack, mode, q, t);
        if i < t.len() {
            lemma_accepted_exactly(index, k, slack, mode, q, t, i);
            assert(t[i] == cands[i]);
            let j = choose|j: int| 0 <= j < rest.len() && rest[j] == cands[i];
            assert(now[j] == cands[i]);
        } else {
            assert(now[now.len() - 1] == cands[i]);
        }
    }
}

/// The hits have different numbers, and come by ascending distance.
spec fn in_order<R: Scalar>(found: Seq<Found<R>>) -> bool {
    forall|i: int, j: int|
        0 <= i < j < found.len() ==> (#[trigger] found[i]).0 != (#[trigger] found[j]).0
            && found[i].1.key_of() <= found[j].1.key_of()
}

proof fn lemma_without_rest<R: Scalar>(found: Seq<Found<R>>, id: usize)
    requires
        in_order(found),
    ensures
        in_order(without(found, id)),
        forall|x: Found<R>|
            #[trigger] without(found, id).contains(x) <==> found.contains(x) && x.0 != id,
    decreases found.len(),
{
    if found.len() > 0 {
        let t = found.drop_last();
        assert(in_order(t)) by {
            assert forall|i: int, j: int| 0 <= i < j < t.len() implies (#[trigger] t[i]).0 != (
            #[trigger] t[j]).0 && t[i].1.key_of() <= t[j].1.key_of() by {
                assert(t[i] == found[i] && t[j] == found[j]);
            }
        }
        lemma_without_rest(t, id);
        let rest = without(t, id);
        let now = without(found, id);
        let last = found.last();
        assert forall|x: Found<R>| #[trigger]
            now.contains(x) <==> found.contains(x) && x.0 != id by {
            if found.contains(x) && x.0 != id {
                let i = choose|i: int| 0 <= i < found.len() && found[i] == x;
                if i < t.len() {
                    assert(t[i] == x);
                    assert(rest.contains(x));
                    let j = choose|j: int| 0 <= j < rest.len() && rest[j] == x;
                    assert(now[j] == x);
                } else {
                    assert(now[now.len() - 1] == x);
                }
            }
            if now.contains(x) {
                let j = choose|j: int| 0 <= j < now.len() && now[j] == x;
                if j < rest.len() {
                    assert(rest[j] == x);
                    assert(rest.contains(x));
                    let i = choose|i: int| 0 <= i < t.len() && t[i] == x;
                    assert(found[i] == x);
                } else {
                    assert(found[found.len() - 1] == x);
                }
            }
        }
        assert forall|i: int, j: int| 0 <= i < j < now.len() implies (#[trigger] now[i]).0 != (
        #[trigger] now[j]).0 && now[i].1.key_of() <= now[j].1.key_of() by {
            if j < rest.len() {
                assert(now[i] == rest[i] && now[j] == rest[j]);
            } else {
                assert(now[i] == rest[i]);
                assert(rest.contains(rest[i]));
                let x = choose|x: int| 0 <= x < t.len() && t[x] == rest[i];
                assert(found[x] == rest[i] && found[found.len() - 1] == last);
            }
        }
    }
}

/// The other vectors that are nearer to vector `id` than `reach`.
pub open spec fn nearer_others<R: Scalar>(points: Seq<Seq<R>>, id: int, reach: R) -> Set<int> {
    Set::new(
        |j: int|
            0 <= j < points.len() && j != id && less(sq_l2_of(points[id], points[j]), reach),
    )
}

/// The other vectors that are no farther from vector `id` than `reach`.
pub open spec fn reached_others<R: Scalar>(points: Seq<Seq<R>>, id: int, reach: R) -> Set<int> {
    Set::new(
        |j: int|
            0 <= j < points.len() && j != id && !less(reach, sq_l2_of(points[id], points[j])),
    )
}

proof fn lemma_below_finite(s: Set<int>, n: nat)
    requires
        forall|j: int| #[trigger] s.contains(j) ==> 0 <= j < n,
    ensures
        s.finite(),
    decreases n,
{
    if n == 0 {
        assert(s =~= Set::empty());
    } else {
        let m = n - 1;
        lemma_below_finite(s.remove(m), m as nat);
        assert(s =~= s.remove(m) || s =~= s.remove(m).insert(m));
    }
}

/// The radius of a vector's neighbourhood is its distance to the `k`-th nearest other
/// vector, or to the farthest one where there are fewer: fewer than `k` other vectors
/// are nearer, at least `k` are no farther, and one is at that distance.
pub proof fn lemma_reach<R: Scalar>(points: Seq<Seq<R>>, id: usize, k: nat)
    requires
        id < points.len() <= usize::MAX,
        points.len() >= 2,
        k >= 1,
    ensures
        ({
            let r = reach_of(points, id, k);
            let most = if k <= points.len() - 1 {
                k as int
            } else {
                points.len() - 1
            };
            &&& nearer_others(points, id as int, r).finite()
            &&& reached_others(points, id as int, r).finite()
            &&& nearer_others(points, id as int, r).len() < most
            &&& reached_others(points, id as int, r).len() >= most
            &&& exists|j: int|
                0 <= j < points.len() && j != id && r == #[trigger] sq_l2_of(
                    points[id as int],
                    points[j],
                )
        }),
{
    let n = points.len();
    let p = points[id as int];
    let full = nearest_found(p, points, n);
    let rest = without(full, id);
    let first = first_n(rest, k);
    let r = reach_of(points, id, k);
    lemma_nearest_found(p, points, n);
    let ids = Seq::new(full.len(), |i: int| full[i].0 as int);
    assert(full.len() == n);
    assert(in_order(full)) by {
        assert forall|i: int, j: int| 0 <= i < j < full.len() implies (#[trigger] full[i]).0 != (
        #[trigger] full[j]).0 && full[i].1.key_of() <= full[j].1.key_of() by {
            assert(ids[i] == full[i].0 && ids[j] == full[j].0);
        }
    }
    lemma_without_rest(full, id);
    crate::rknn_verified::verify::lemma_scan_distinct(p, points, n);
    let others = Seq::new(rest.len(), |i: int| rest[i].0 as int);
    assert(others.no_duplicates()) by {
        assert forall|i: int, j: int|
            0 <= i < others.len() && 0 <= j < others.len() && i != j implies others[i]
            != others[j] by {
            if i < j {
                assert(rest[i].0 != rest[j].0);
            } else {
                assert(rest[j].0 != rest[i].0);
            }
        }
    }
    let all = Set::new(|j: int| 0 <= j < n && j != id);
    assert forall|j: int| all.contains(j) <==> others.contains(j) by {
        if all.contains(j) {
            assert(crate::rknn_verified::holds_number(full, j as usize));
            let x = choose|x: int| 0 <= x < full.len() && (#[trigger] full[x]).0 == j as usize;
            assert(full.contains(full[x]));
            assert(rest.contains(full[x]));
            let y = choose|y: int| 0 <= y < rest.len() && rest[y] == full[x];
            assert(others[y] == j);
        }
        if others.contains(j) {
            let y = choose|y: int| 0 <= y < others.len() && others[y] == j;
            assert(rest.contains(rest[y]));
            let x = choose|x: int| 0 <= x < full.len() && full[x] == rest[y];
            assert(ids[x] == j);
        }
    }
    assert(all =~= others.to_set());
    others.unique_seq_to_set();
    lemma_range_without(n, id as int);
    assert(rest.len() == n - 1);
    let most = first.len() as int;
    assert forall|i: int| 0 <= i < rest.len() implies (#[trigger] rest[i]).1 == sq_l2_of(
        p,
        points[rest[i].0 as int],
    ) && rest[i].0 < n && rest[i].0 != id by {
        assert(rest.contains(rest[i]));
        let x = choose|x: int| 0 <= x < full.len() && full[x] == rest[i];
        assert(ids[x] < n);
    }
    assert(r == rest[most - 1].1);
    let nearer = nearer_others(points, id as int, r);
    let reached = reached_others(points, id as int, r);
    lemma_below_finite(nearer, n);
    lemma_below_finite(reached, n);
    let few = others.take(most - 1);
    let some = others.take(most);
    assert(few.no_duplicates() && some.no_duplicates());
    few.unique_seq_to_set();
    some.unique_seq_to_set();
    assert(nearer.subset_of(few.to_set())) by {
        assert forall|j: int| nearer.contains(j) implies few.to_set().contains(j) by {
            assert(all.contains(j));
            assert(others.contains(j));
            let y = choose|y: int| 0 <= y < others.len() && others[y] == j;
            assert(rest[y].0 == j);
            if y >= most - 1 {
                if y > most - 1 {
                    assert(rest[most - 1].1.key_of() <= rest[y].1.key_of());
                }
            } else {
                assert(few[y] == j);
            }
        }
    }
    assert(some.to_set().subset_of(reached)) by {
        assert forall|j: int| some.to_set().contains(j) implies reached.contains(j) by {
            let y = choose|y: int| 0 <= y < some.len() && some[y] == j;
            assert(rest[y].0 == j);
            if y < most - 1 {
                assert(rest[y].1.key_of() <= rest[most - 1].1.key_of());
            }
        }
    }
    vstd::set_lib::lemma_len_subset(nearer, few.to_set());
    vstd::set_lib::lemma_len_subset(some.to_set(), reached);
    assert(r == sq_l2_of(p, points[others[most - 1]]));
}

proof fn lemma_range_without(n: nat, id: int)
    requires
        0 <= id < n,
    ensures
        Set::new(|j: int| 0 <= j < n && j != id).finite(),
        Set::new(|j: int| 0 <= j < n && j != id).len() == n - 1,
{
    let all = vstd::set_lib::set_int_range(0, n as int);
    vstd::set_lib::lemma_int_range(0, n as int);
    assert(Set::new(|j: int| 0 <= j < n && j != id) =~= all.remove(id));
}

/// Over an exact index a candidate accepts a query, looked up live, if and only if the
/// squared distance of the query is no more than `slack` times that of the candidate's
/// `k`-th nearest other vector.
pub proof fn lemma_accepts_within(
    index: FlatL2Index<Fixed>,
    k: nat,
    slack: Fixed,
    q: Seq<Fixed>,
    id: usize,
)
    requires
        id < index.points().len() <= usize::MAX,
        settled(index.points(), id),
        slack.raw >= 0,
        reach_of(index.points(), id, k).raw >= 0,
        slack.raw * reach_of(index.points(), id, k).raw <= 0x7FFF_FFFF_FFFF_FFFF_0000,
    ensures
        accepted(index, k, slack, VerifyMode::Live, q, id) <==> 0x1_0000 * sq_l2_of(
            q,
            index.points()[id as int],
        ).raw <= slack.raw * reach_of(index.points(), id, k).raw,
{
    let reach = reach_of(index.points(), id, k);
    lemma_exact_modes(index, k, slack, q, id);
    assert(slack.raw * reach.raw >= 0) by (nonlinear_arith)
        requires
            slack.raw >= 0,
            reach.raw >= 0,
    ;
    lemma_times(slack, reach);
}

/// A noisy distance `d` is changed by `(h / 65535 - 1/2) * 0.35 * (d + 0.001)`, where
/// `h` is the lower half word of the hash of the number; the tolerance is that of
/// rounding the factors.
pub proof fn lemma_jitter_exact(seed: u64, hit: Found<Fixed>)
    requires
        0 <= hit.1.raw <= 0x4000_0000_0000_0000,
    ensures
        ({
            let h = (scrambled(seed, hit.0) & 0xFFFF) as int;
            let change = jittered(seed, hit).1.raw - hit.1.raw;
            let wide = hit.1.raw + 65;
            close(
                0x1_0000 * (13_107_000 * change),
                0x1_0000 * (35 * ((2 * h - 65_535) * wide)),
                (13_107_000 * (2 * wide + 0x1_0000)) as nat,
            )
        }),
        jittered(seed, hit).0 == hit.0,
{
    let mixed = scrambled(seed, hit.0);
    let h = mixed & 0xFFFF;
    assert(mixed & 0xFFFF <= 0xFFFF) by (bit_vector);
    let top = whole::<Fixed>(h);
    let base = whole::<Fixed>(65535);
    assert(top.raw == h * 65536 && base.raw == 0xFFFF_0000);
    lemma_over(top, base);
    let quotient = top.over_of(base).raw as int;
    assert(quotient * base.raw == 0xFFFF_0000 * quotient);
    assert(65535 * quotient <= h * 65536 < 65535 * quotient + 65535);
    let half = Fixed::ratio_of(1, 2);
    assert(half.raw == 32768);
    let share = top.over_of(base).minus_of(half);
    assert(share.raw == quotient - 32768);
    let part = Fixed::ratio_of(35, 100);
    assert(part.raw == 22937);
    assert(share.raw * part.raw == 22937 * share.raw);
    lemma_times(share, part);
    let small = share.times_of(part);
    let tick = Fixed::ratio_of(1, 1000);
    assert(tick.raw == 65);
    let wide = hit.1.plus_of(tick);
    assert(wide.raw == hit.1.raw + 65);
    let (s, w) = (small.raw as int, wide.raw as int);
    let sw = s * w;
    assert(-32768 <= share.raw <= 32768);
    assert(-11469 <= s <= 11469);
    assert(-11469 * w <= sw <= 11469 * w) by (nonlinear_arith)
        requires
            sw == s * w,
            -11469 <= s <= 11469,
            w >= 0,
    ;
    lemma_times(small, wide);
    let change = small.times_of(wide).raw as int;
    let e = 2 * h - 65535;
    let ew = e * w;
    assert(-2 * 13_107_000 <= 13_107_000 * s - 0x1_0000 * (35 * e) <= 2 * 13_107_000);
    assert(-26_214_000 * w <= 13_107_000 * sw - 2_293_760 * ew <= 26_214_000 * w)
        by (nonlinear_arith)
        requires
            sw == s * w,
            ew == e * w,
            w >= 0,
            -26_214_000 <= 13_107_000 * s - 2_293_760 * e <= 26_214_000,
    ;
    assert(jittered(seed, hit).1.raw - hit.1.raw == change);
    assert(ew == (2 * (h as int) - 65_535) * (hit.1.raw + 65));
}

} // verus!
