//! Which rows become seeds.

use vstd::prelude::*;

use crate::exact::{exact_weight, lemma_times, lemma_weight_rises, summable};
use crate::linalg::sq_l2_of;
use crate::rpq::kmeans::{drawn_fraction, lemma_seeded, picked, reaching, seeded, weight_upto};
use crate::scalar::{less, Fixed, Scalar, Widen};

verus! {

/// The weight of a row when a further seed is drawn is its squared distance to the
/// nearest of the seeds before: no seed is nearer, and one is at that distance.
pub proof fn lemma_seed_weights<R: Scalar + Widen<W>, W: Scalar>(
    table: Seq<Seq<R>>,
    c: nat,
    s: u64,
    i: int,
)
    requires
        table.len() > 0,
        c >= 1,
        0 <= i < table.len(),
    ensures
        ({
            let seeds = seeded::<R, W>(table, c, s);
            &&& forall|j: int|
                0 <= j < c - 1 ==> !less(
                    #[trigger] sq_l2_of(table[i], seeds.centres[j]),
                    seeds.weights[i],
                )
            &&& seeds.weights[i] == R::infinity_of() || exists|j: int|
                0 <= j < c - 1 && seeds.weights[i] == #[trigger] sq_l2_of(
                    table[i],
                    seeds.centres[j],
                )
        }),
    decreases c,
{
    lemma_seeded::<R, W>(table, c, s);
    if c > 1 {
        let m = (c - 1) as nat;
        lemma_seeded::<R, W>(table, m, s);
        lemma_seed_weights::<R, W>(table, m, s, i);
        let before = seeded::<R, W>(table, m, s);
        let now = seeded::<R, W>(table, c, s);
        let last = m - 1;
        assert(before.centres.last() == before.centres[last]);
        assert forall|j: int| 0 <= j < c - 1 implies !less(
            #[trigger] sq_l2_of(table[i], now.centres[j]),
            now.weights[i],
        ) by {
            assert(now.centres[j] == before.centres[j]);
            if j < m - 1 {
                assert(!less(sq_l2_of(table[i], before.centres[j]), before.weights[i]));
            }
        }
        if now.weights[i] == sq_l2_of(table[i], before.centres[last]) {
            assert(now.centres[last] == before.centres[last]);
            assert(now.weights[i] == sq_l2_of(table[i], now.centres[last]));
        } else if now.weights[i] != R::infinity_of() {
            let j = choose|j: int|
                0 <= j < m - 1 && before.weights[i] == #[trigger] sq_l2_of(
                    table[i],
                    before.centres[j],
                );
            assert(now.centres[j] == before.centres[j]);
            assert(now.weights[i] == sq_l2_of(table[i], now.centres[j]));
        }
    }
}

proof fn lemma_weight_exact(weights: Seq<Fixed>, n: nat)
    requires
        summable(weights),
        n <= weights.len(),
    ensures
        weight_upto::<Fixed, Fixed>(weights, n).raw == exact_weight(weights, n),
    decreases n,
{
    if n > 0 {
        lemma_weight_exact(weights, (n - 1) as nat);
        lemma_weight_rises(weights, n, weights.len());
        lemma_weight_rises(weights, (n - 1) as nat, n);
    }
}

proof fn lemma_reached(weights: Seq<Fixed>, target: Fixed, from: nat)
    requires
        summable(weights),
        from < weights.len(),
        target.raw <= exact_weight(weights, weights.len()),
        from == 0 || exact_weight(weights, from) < target.raw,
    ensures
        ({
            let p = reaching::<Fixed, Fixed>(weights, target, from);
            &&& from <= p < weights.len()
            &&& p == 0 || exact_weight(weights, p as nat) < target.raw
            &&& target.raw <= exact_weight(weights, (p + 1) as nat)
        }),
    decreases weights.len() - from,
{
    lemma_weight_exact(weights, from + 1);
    if less(weight_upto::<Fixed, Fixed>(weights, from + 1), target) {
        lemma_reached(weights, target, from + 1);
    }
}

/// A row is picked by weight: a draw names a point on the line from zero to the sum of
/// all weights, and the row is that on whose stretch the point lies. The point is the
/// drawn fraction of the way, rounded down.
pub proof fn lemma_picked_by_weight(weights: Seq<Fixed>, s: u64)
    requires
        summable(weights),
        exact_weight(weights, weights.len()) > 0,
    ensures
        ({
            let p = picked::<Fixed, Fixed>(weights, s);
            let total = exact_weight(weights, weights.len());
            exists|t: int|
                {
                    &&& #[trigger] is_point(t, drawn_fraction(s) as int, total)
                    &&& 0 <= p < weights.len()
                    &&& p == 0 || exact_weight(weights, p as nat) < t
                    &&& t <= exact_weight(weights, (p + 1) as nat)
                }
        }),
{
    let n = weights.len();
    let f = drawn_fraction(s);
    lemma_weight_exact(weights, n);
    let total = weight_upto::<Fixed, Fixed>(weights, n);
    let w = total.raw as int;
    let u = Fixed::ratio_of(f, 0x100_0000);
    let draw = crate::rpq::rng::rng_output(s);
    assert((draw >> 40) < 0x100_0000u64) by (bit_vector);
    assert(u.raw == f / 0x100);
    let x = u.raw as int;
    assert(0 <= x < 0x1_0000);
    let xw = x * w;
    assert(0 <= xw <= 0x1_0000 * w) by (nonlinear_arith)
        requires
            xw == x * w,
            0 <= x <= 0x1_0000,
            w >= 0,
    ;
    lemma_times(u, total);
    let t = u.times_of(total);
    let fw = f * w;
    assert(0x100 * xw <= fw < 0x100 * xw + 0x100 * w) by (nonlinear_arith)
        requires
            xw == x * w,
            fw == f * w,
            0x100 * x <= f < 0x100 * x + 0x100,
            w > 0,
    ;
    assert(is_point(t.raw as int, f as int, w));
    lemma_reached(weights, t, 0);
}

/// `t` is `f / 2^24` of `total`, rounded down.
pub open spec fn is_point(t: int, f: int, total: int) -> bool {
    0 <= 0x100_0000 * t <= f * total < 0x100_0000 * t + 0x100_0000 + 0x100 * total
}

/// A row that is a seed already is not picked again, unless it is the first one and the
/// draw is next to zero.
pub proof fn lemma_picked_has_weight(weights: Seq<Fixed>, s: u64)
    requires
        summable(weights),
        exact_weight(weights, weights.len()) > 0,
        picked::<Fixed, Fixed>(weights, s) > 0,
    ensures
        weights[picked::<Fixed, Fixed>(weights, s)].raw > 0,
{
    lemma_picked_by_weight(weights, s);
}

/// A row lies on the stretch of the line of weights that holds point `t`.
pub open spec fn on_stretch(weights: Seq<Fixed>, p: int, t: int) -> bool {
    &&& 0 <= p < weights.len()
    &&& p == 0 || exact_weight(weights, p as nat) < t
    &&& t <= exact_weight(weights, (p + 1) as nat)
}

/// Each further seed is a row that is drawn in proportion to the squared distances of
/// the rows to the seeds before it.
pub proof fn lemma_next_seed(table: Seq<Seq<Fixed>>, c: nat, s: u64)
    requires
        table.len() > 0,
        c >= 2,
        summable(seeded::<Fixed, Fixed>(table, c, s).weights),
        exact_weight(seeded::<Fixed, Fixed>(table, c, s).weights, table.len()) > 0,
    ensures
        ({
            let now = seeded::<Fixed, Fixed>(table, c, s);
            let total = exact_weight(now.weights, table.len());
            exists|p: int, t: int|
                #[trigger] on_stretch(now.weights, p, t) && is_point(
                    t,
                    drawn_fraction(now.state) as int,
                    total,
                ) && now.centres[c - 1] == table[p]
        }),
{
    let now = seeded::<Fixed, Fixed>(table, c, s);
    lemma_seeded::<Fixed, Fixed>(table, c, s);
    lemma_seeded::<Fixed, Fixed>(table, (c - 1) as nat, s);
    lemma_picked_by_weight(now.weights, now.state);
    let p = picked::<Fixed, Fixed>(now.weights, now.state);
    let total = exact_weight(now.weights, table.len());
    let t = choose|t: int|
        {
            &&& #[trigger] is_point(t, drawn_fraction(now.state) as int, total)
            &&& 0 <= p < now.weights.len()
            &&& p == 0 || exact_weight(now.weights, p as nat) < t
            &&& t <= exact_weight(now.weights, (p + 1) as nat)
        };
    assert(on_stretch(now.weights, p, t));
    assert(now.centres[c - 1] == table[p]);
}

} // verus!
