//! What a penalty measures, and which lists it leads to.

use vstd::prelude::*;

use crate::cluster::{lemma_nearest_centre, nearest_upto};
use crate::exact::{
    bounded, eight_places, lemma_exact_products, lemma_over, lemma_scaled_products, lemma_times,
    scaled,
};
use crate::linalg::{common, difference, dot_of, dot_upto, sq_l2_of, sq_l2_upto, tiny};
use crate::scalar::{less, Fixed, Scalar};
use crate::soar_ivf::ivf_soar::{
    cheapest, cost, cost_upto, lemma_cheapest, lemma_soar_picks, norm_sq, penalty, soar_picks,
};
use crate::soar_ivf::ivf_spill_topk::lesser;

verus! {

/// A penalty, and what it is computed from, fits: `d` is the inner product and `s`
/// the squared norm.
pub open spec fn payable(lambda: Fixed, d: Fixed, s: Fixed) -> bool {
    &&& lambda.raw >= 0
    &&& s.raw > 0
    &&& d.raw * d.raw <= 0x7FFF_FFFF_FFFF_FFFF * 0x1_0000
    &&& lambda.raw * (d.raw * d.raw) <= 0x7FFF_FFFF_FFFF_FFFF * 0x1_0000_0000
    &&& lambda.raw * (d.raw * d.raw) <= 0x7FFF_FFFF_FFFF_FFFF_0000 * s.raw
}

/// What rounding takes from a penalty, times the squared norm.
pub open spec fn penalty_slack(lambda: Fixed, s: Fixed) -> int {
    0x1_0000 * (lambda.raw + 0x1_0000 + s.raw)
}

/// A penalty is `lambda` times the squared length of the component of a residual
/// along another one: times the squared norm of the other one, it is `lambda` times
/// the square of their inner product. It is never negative.
pub proof fn lemma_penalty_exact(
    lambda: Fixed,
    residual: Seq<Fixed>,
    prev: Seq<Fixed>,
    prev_sq: Fixed,
)
    requires
        payable(lambda, dot_of(residual, prev), prev_sq),
    ensures
        ({
            let p = penalty(lambda, residual, prev, prev_sq).raw;
            let d = dot_of(residual, prev).raw;
            let exact = lambda.raw * (d * d);
            &&& p >= 0
            &&& 0x1_0000 * (p * prev_sq.raw) <= exact
            &&& exact < 0x1_0000 * (p * prev_sq.raw) + penalty_slack(lambda, prev_sq)
        }),
{
    let d = dot_of(residual, prev);
    let s = prev_sq;
    let l = lambda.raw as int;
    let square = d.raw * d.raw;
    assert(square >= 0) by (nonlinear_arith)
        requires
            square == d.raw * d.raw,
    ;
    lemma_times(d, d);
    let dd = d.times_of(d);
    let e = l * dd.raw;
    assert(0x1_0000 * e <= l * square && l * square < 0x1_0000 * e + 0x1_0000 * (l + 1)
        && e >= 0) by (nonlinear_arith)
        requires
            e == l * dd.raw,
            l >= 0,
            0 <= 0x1_0000 * dd.raw <= square,
            square - 0x1_0000 * dd.raw < 0x1_0000,
    ;
    lemma_times(lambda, dd);
    let t = lambda.times_of(dd);
    assert(0x1_0000 * t.raw <= e && e < 0x1_0000 * t.raw + 0x1_0000);
    lemma_over(t, s);
    let p = t.over_of(s);
    assert(p == penalty(lambda, residual, prev, prev_sq));
    assert(l * square < 0x1_0000 * (p.raw * s.raw) + penalty_slack(lambda, s)) by {
        lemma_penalty_upper(l, square, dd.raw as int, e, t.raw as int, p.raw * s.raw, s.raw as int);
    }
}

proof fn lemma_penalty_upper(l: int, square: int, dd: int, e: int, t: int, ps: int, s: int)
    requires
        l >= 0,
        e == l * dd,
        square < 0x1_0000 * dd + 0x1_0000,
        e < 0x1_0000 * t + 0x1_0000,
        t * 0x1_0000 - ps < s,
    ensures
        l * square < 0x1_0000 * ps + 0x1_0000 * (l + 0x1_0000 + s),
{
    assert(l * square <= 0x1_0000 * e + 0x1_0000 * l) by (nonlinear_arith)
        requires
            l >= 0,
            e == l * dd,
            square < 0x1_0000 * dd + 0x1_0000,
    ;
}

/// The penalty of a residual along itself is `lambda` times its squared norm.
pub proof fn lemma_penalty_self(lambda: Fixed, residual: Seq<Fixed>)
    requires
        payable(lambda, dot_of(residual, residual), dot_of(residual, residual)),
    ensures
        ({
            let s = dot_of(residual, residual);
            let p = penalty(lambda, residual, residual, s).raw;
            &&& 0x1_0000 * p <= lambda.raw * s.raw
            &&& (lambda.raw * s.raw - 0x1_0000 * p) * s.raw < penalty_slack(lambda, s)
        }),
{
    let s = dot_of(residual, residual);
    let p = penalty(lambda, residual, residual, s).raw as int;
    lemma_penalty_exact(lambda, residual, residual, s);
    let (l, n) = (lambda.raw as int, s.raw as int);
    let slack = penalty_slack(lambda, s);
    assert(0x1_0000 * p <= l * n && (l * n - 0x1_0000 * p) * n < slack) by (nonlinear_arith)
        requires
            n > 0,
            0x1_0000 * (p * n) <= l * (n * n),
            l * (n * n) < 0x1_0000 * (p * n) + slack,
    ;
}

/// A residual is not penalized along one that it is perpendicular to.
pub proof fn lemma_penalty_perpendicular(
    lambda: Fixed,
    residual: Seq<Fixed>,
    prev: Seq<Fixed>,
    prev_sq: Fixed,
)
    requires
        dot_of(residual, prev).raw == 0,
        prev_sq.raw > 0,
        lambda.raw >= 0,
    ensures
        penalty(lambda, residual, prev, prev_sq).raw == 0,
{
    let d = dot_of(residual, prev);
    assert(d.raw * d.raw == 0) by (nonlinear_arith)
        requires
            d.raw == 0,
    ;
    assert(lambda.raw * (d.raw * d.raw) == 0) by (nonlinear_arith)
        requires
            d.raw * d.raw == 0,
    ;
    lemma_penalty_exact(lambda, residual, prev, prev_sq);
    let p = penalty(lambda, residual, prev, prev_sq).raw;
    assert(p == 0) by (nonlinear_arith)
        requires
            p >= 0,
            prev_sq.raw > 0,
            0x1_0000 * (p * prev_sq.raw) <= 0,
    ;
}

/// A penalty does not depend on how long the other residual is, nor on which of its
/// two directions it points in: it stays the same, but for rounding, where the other
/// residual is scaled by `k` and its squared norm along with it.
pub proof fn lemma_penalty_scaled(
    lambda: Fixed,
    residual: Seq<Fixed>,
    prev: Seq<Fixed>,
    prev_sq: Fixed,
    longer: Seq<Fixed>,
    longer_sq: Fixed,
    k: int,
)
    requires
        k != 0,
        scaled(prev, longer, k),
        longer_sq.raw == k * k * prev_sq.raw,
        residual.len() == prev.len(),
        bounded(residual, 0x8000_0000),
        bounded(prev, 0x8000_0000),
        bounded(longer, 0x8000_0000),
        eight_places(residual),
        eight_places(prev),
        eight_places(longer),
        payable(lambda, dot_of(residual, prev), prev_sq),
        payable(lambda, dot_of(residual, longer), longer_sq),
    ensures
        ({
            let p = penalty(lambda, residual, prev, prev_sq).raw;
            let q = penalty(lambda, residual, longer, longer_sq).raw;
            let slack = penalty_slack(lambda, prev_sq);
            -slack < 0x1_0000 * ((p - q) * prev_sq.raw) < slack
        }),
{
    let n = prev.len();
    lemma_exact_products(residual, prev, n);
    lemma_exact_products(residual, longer, n);
    lemma_scaled_products(prev, longer, residual, k, n);
    let d = dot_of(residual, prev).raw as int;
    let e = dot_of(residual, longer).raw as int;
    assert(e == k * d) by (nonlinear_arith)
        requires
            0x1_0000 * e == k * (0x1_0000 * d),
    ;
    lemma_penalty_exact(lambda, residual, prev, prev_sq);
    lemma_penalty_exact(lambda, residual, longer, longer_sq);
    let p = penalty(lambda, residual, prev, prev_sq).raw as int;
    let q = penalty(lambda, residual, longer, longer_sq).raw as int;
    let (l, s) = (lambda.raw as int, prev_sq.raw as int);
    let x = l * (d * d);
    let kk = k * k;
    assert(kk >= 1) by (nonlinear_arith)
        requires
            kk == k * k,
            k != 0,
    ;
    assert(l * (e * e) == kk * x) by (nonlinear_arith)
        requires
            e == k * d,
            x == l * (d * d),
            kk == k * k,
    ;
    let ls = longer_sq.raw as int;
    assert(0x1_0000 * (q * ls) == kk * (0x1_0000 * (q * s))) by (nonlinear_arith)
        requires
            ls == kk * s,
    ;
    let slack = 0x1_0000 * (l + 0x1_0000 + s);
    assert(0x1_0000 * (l + 0x1_0000 + ls) <= kk * slack) by (nonlinear_arith)
        requires
            ls == kk * s,
            kk >= 1,
            l >= 0,
            s > 0,
            slack == 0x1_0000 * (l + 0x1_0000 + s),
    ;
    let u = 0x1_0000 * (q * s);
    assert(u <= x && x < u + slack) by (nonlinear_arith)
        requires
            kk >= 1,
            kk * u <= kk * x,
            kk * x < kk * u + kk * slack,
    ;
    assert((p - q) * s == p * s - q * s) by (nonlinear_arith);
}

/// The residual of centroid `c` along that of centroid `p`.
pub open spec fn penalty_between(
    x: Seq<Fixed>,
    centroids: Seq<Seq<Fixed>>,
    lambda: Fixed,
    c: int,
    p: int,
) -> Fixed {
    penalty(
        lambda,
        difference(x, centroids[c]),
        difference(x, centroids[p]),
        norm_sq(x, centroids[p]),
    )
}

/// The penalties of centroid `c` for the first `n` that were picked, summed up.
pub open spec fn penalties(
    x: Seq<Fixed>,
    centroids: Seq<Seq<Fixed>>,
    lambda: Fixed,
    chosen: Seq<usize>,
    c: int,
    n: nat,
) -> int
    decreases n,
{
    if n == 0 {
        0
    } else {
        penalties(x, centroids, lambda, chosen, c, (n - 1) as nat) + penalty_between(
            x,
            centroids,
            lambda,
            c,
            chosen[n - 1] as int,
        ).raw
    }
}

/// The cost of centroid `c`, and what it is computed from, fits.
pub open spec fn affordable(
    x: Seq<Fixed>,
    centroids: Seq<Seq<Fixed>>,
    lambda: Fixed,
    chosen: Seq<usize>,
    c: int,
) -> bool {
    &&& chosen.len() <= 0x400
    &&& 0 <= sq_l2_of(x, centroids[c]).raw <= 0x4_0000_0000_0000
    &&& forall|j: int|
        0 <= j < chosen.len() ==> {
            let p = #[trigger] chosen[j] as int;
            &&& payable(
                lambda,
                dot_of(difference(x, centroids[c]), difference(x, centroids[p])),
                norm_sq(x, centroids[p]),
            )
            &&& penalty_between(x, centroids, lambda, c, p).raw <= 0x4_0000_0000_0000
        }
}

proof fn lemma_cost_upto(
    x: Seq<Fixed>,
    centroids: Seq<Seq<Fixed>>,
    lambda: Fixed,
    chosen: Seq<usize>,
    c: int,
    n: nat,
)
    requires
        affordable(x, centroids, lambda, chosen, c),
        n <= chosen.len(),
    ensures
        cost_upto(x, centroids, lambda, chosen, c, n).raw == sq_l2_of(x, centroids[c]).raw
            + penalties(x, centroids, lambda, chosen, c, n),
        0 <= penalties(x, centroids, lambda, chosen, c, n) <= n * 0x4_0000_0000_0000,
        forall|j: int|
            0 <= j < n ==> penalties(x, centroids, lambda, chosen, c, n) >= penalty_between(
                x,
                centroids,
                lambda,
                c,
                #[trigger] chosen[j] as int,
            ).raw,
        (forall|j: int|
            0 <= j < n ==> dot_of(
                difference(x, centroids[c]),
                difference(x, centroids[#[trigger] chosen[j] as int]),
            ).raw == 0) ==> penalties(x, centroids, lambda, chosen, c, n) == 0,
    decreases n,
{
    if n > 0 {
        let m = (n - 1) as nat;
        lemma_cost_upto(x, centroids, lambda, chosen, c, m);
        let p = chosen[m as int] as int;
        lemma_penalty_exact(
            lambda,
            difference(x, centroids[c]),
            difference(x, centroids[p]),
            norm_sq(x, centroids[p]),
        );
        if forall|j: int|
            0 <= j < n ==> dot_of(
                difference(x, centroids[c]),
                difference(x, centroids[#[trigger] chosen[j] as int]),
            ).raw == 0 {
            assert(dot_of(
                difference(x, centroids[c]),
                difference(x, centroids[chosen[m as int] as int]),
            ).raw == 0);
            lemma_penalty_perpendicular(
                lambda,
                difference(x, centroids[c]),
                difference(x, centroids[p]),
                norm_sq(x, centroids[p]),
            );
        }
    }
}

/// The squared norm of a difference is the squared distance.
proof fn lemma_norm_of_difference(x: Seq<Fixed>, c: Seq<Fixed>, n: nat)
    requires
        n <= common(x, c),
    ensures
        dot_upto(difference(x, c), difference(x, c), n) == sq_l2_upto(x, c, n),
    decreases n,
{
    if n > 0 {
        lemma_norm_of_difference(x, c, (n - 1) as nat);
    }
}

/// The cost of a centroid is its squared distance and the penalties for all that
/// were picked before. It is no less than the distance; it is the distance where the
/// residual is perpendicular to those of all that were picked; and where the
/// centroid lies where a picked one lies, it is more by at least `lambda` times the
/// distance.
pub proof fn lemma_cost(
    x: Seq<Fixed>,
    centroids: Seq<Seq<Fixed>>,
    lambda: Fixed,
    chosen: Seq<usize>,
    c: int,
)
    requires
        affordable(x, centroids, lambda, chosen, c),
    ensures
        ({
            let d = sq_l2_of(x, centroids[c]);
            let total = cost(x, centroids, lambda, chosen, c).raw;
            &&& total == d.raw + penalties(x, centroids, lambda, chosen, c, chosen.len())
            &&& total >= d.raw
            &&& (forall|j: int|
                0 <= j < chosen.len() ==> dot_of(
                    difference(x, centroids[c]),
                    difference(x, centroids[#[trigger] chosen[j] as int]),
                ).raw == 0) ==> total == d.raw
            &&& forall|j: int|
                0 <= j < chosen.len() && centroids[#[trigger] chosen[j] as int] == centroids[c] ==> (
                lambda.raw * d.raw - 0x1_0000 * (total - d.raw)) * d.raw < penalty_slack(lambda, d)
        }),
{
    lemma_cost_upto(x, centroids, lambda, chosen, c, chosen.len());
    let d = sq_l2_of(x, centroids[c]);
    let total = cost(x, centroids, lambda, chosen, c).raw;
    assert forall|j: int|
        0 <= j < chosen.len() && centroids[#[trigger] chosen[j] as int] == centroids[c] implies (
    lambda.raw * d.raw - 0x1_0000 * (total - d.raw)) * d.raw < penalty_slack(lambda, d) by {
        let r = difference(x, centroids[c]);
        lemma_norm_of_difference(x, centroids[c], common(x, centroids[c]));
        assert(dot_of(r, r) == d);
        assert(tiny::<Fixed>().raw == 0);
        assert(norm_sq(x, centroids[c]) == d);
        lemma_penalty_self(lambda, r);
        let p = penalty_between(x, centroids, lambda, c, chosen[j] as int).raw;
        let (l, n, t) = (lambda.raw as int, d.raw as int, total - d.raw);
        let slack = penalty_slack(lambda, d);
        assert((l * n - 0x1_0000 * t) * n < slack) by (nonlinear_arith)
            requires
                n > 0,
                p <= t,
                (l * n - 0x1_0000 * p) * n < slack,
        ;
    }
}

/// The lists of a vector: the first one is that of the nearest centroid, and each
/// further one that of a centroid that was not picked before and costs no more,
/// after those picked before, than any other one.
pub proof fn lemma_picks_cheapest<R: Scalar>(
    x: Seq<R>,
    centroids: Seq<Seq<R>>,
    lambda: R,
    spill: nat,
    j: int,
)
    requires
        0 < centroids.len() <= usize::MAX,
        spill >= 1,
        0 <= j < soar_picks(x, centroids, lambda, spill).len(),
        forall|c: int|
            0 <= c < centroids.len() ==> less(
                #[trigger] sq_l2_of(x, centroids[c]),
                R::infinity_of(),
            ),
    ensures
        ({
            let picks = soar_picks(x, centroids, lambda, spill);
            let before = picks.take(j);
            &&& picks.len() == lesser(spill, centroids.len())
            &&& j == 0 ==> forall|c: int|
                0 <= c < centroids.len() ==> !less(
                    #[trigger] sq_l2_of(x, centroids[c]),
                    sq_l2_of(x, centroids[picks[0] as int]),
                )
            &&& !before.contains(picks[j])
            &&& j > 0 ==> forall|c: int|
                0 <= c < centroids.len() && !before.contains(c as usize) ==> !less(
                    #[trigger] cost(x, centroids, lambda, before, c),
                    cost(x, centroids, lambda, before, picks[j] as int),
                )
        }),
    decreases spill,
{
    let n = centroids.len();
    let picks = soar_picks(x, centroids, lambda, spill);
    lemma_soar_picks(x, centroids, lambda, spill);
    if spill == 1 {
        lemma_nearest_centre(x, centroids, n);
        let best = nearest_upto(x, centroids, n);
        if best.1 == R::infinity_of() {
            assert(less(sq_l2_of(x, centroids[0]), R::infinity_of()));
        }
    } else {
        let m = (spill - 1) as nat;
        let chosen = soar_picks(x, centroids, lambda, m);
        lemma_soar_picks(x, centroids, lambda, m);
        lemma_cheapest(x, centroids, lambda, chosen, n);
        if j < chosen.len() {
            lemma_picks_cheapest(x, centroids, lambda, m, j);
            assert(picks.take(j) =~= chosen.take(j));
        } else {
            assert(picks.take(j) =~= chosen);
            assert(cheapest(x, centroids, lambda, chosen, n) == Some(picks[j]));
        }
    }
}

} // verus!
