//! Which rows become seeds, over fixed-point numbers.

use vstd::prelude::*;

use crate::exact::{
    bounded, exact_weight, gaps, lemma_sq_l2_upto, lemma_times, lemma_weight_rises, summable,
};
use crate::flat::rectangular;
use crate::linalg::sq_l2_of;
use crate::rvq::kmeans::{
    choices_below, lemma_seeds, reaching, seeds, weighed, weight_upto, weighty, Choice,
};
use crate::scalar::{less, Fixed, Scalar};

verus! {

/// Rows whose distances can be summed up: no more than 2^28 components in all, none
/// farther than 2^8 from zero.
pub open spec fn seedable(table: Seq<Seq<Fixed>>, dim: nat) -> bool {
    &&& table.len() > 0
    &&& table.len() * dim <= 0x1000_0000
    &&& dim <= 0x4000
    &&& rectangular(table, dim)
    &&& forall|i: int| 0 <= i < table.len() ==> bounded(#[trigger] table[i], 0x100_0000)
}

proof fn lemma_small_gaps(a: Seq<Fixed>, b: Seq<Fixed>, n: nat)
    requires
        bounded(a, 0x100_0000),
        bounded(b, 0x100_0000),
        n <= a.len(),
        n <= b.len(),
    ensures
        0 <= gaps(a, b, n) <= 0x4_0000_0000_0000 * n,
    decreases n,
{
    if n > 0 {
        lemma_small_gaps(a, b, (n - 1) as nat);
        let e = a[n - 1].raw - b[n - 1].raw;
        assert(0 <= e * e <= 0x4_0000_0000_0000) by (nonlinear_arith)
            requires
                -0x200_0000 <= e <= 0x200_0000,
        ;
    }
}

proof fn lemma_row_distance(table: Seq<Seq<Fixed>>, dim: nat, i: int, j: int)
    requires
        seedable(table, dim),
        0 <= i < table.len(),
        0 <= j < table.len(),
    ensures
        0 <= sq_l2_of(table[i], table[j]).raw <= 0x4_0000_0000 * dim,
{
    assert(table[i].len() == dim && table[j].len() == dim);
    assert(bounded(table[i], 0x100_0000) && bounded(table[j], 0x100_0000));
    lemma_sq_l2_upto(table[i], table[j], dim);
    lemma_small_gaps(table[i], table[j], dim);
}

proof fn lemma_weight_bound(weights: Seq<Fixed>, dim: nat, n: nat)
    requires
        n <= weights.len(),
        forall|i: int|
            0 <= i < weights.len() ==> 0 <= (#[trigger] weights[i]).raw <= 0x4_0000_0000 * dim,
    ensures
        0 <= exact_weight(weights, n) <= 0x4_0000_0000 * (n * dim),
    decreases n,
{
    if n == 0 {
        assert(n * dim == 0) by (nonlinear_arith)
            requires
                n == 0,
        ;
    } else {
        lemma_weight_bound(weights, dim, (n - 1) as nat);
        assert(0 <= weights[n - 1].raw <= 0x4_0000_0000 * dim);
        assert(n * dim == (n - 1) * dim + dim) by (nonlinear_arith);
    }
}

proof fn lemma_weight_exact(weights: Seq<Fixed>, n: nat)
    requires
        summable(weights),
        n <= weights.len(),
    ensures
        weight_upto(weights, n).raw == exact_weight(weights, n),
    decreases n,
{
    if n > 0 {
        lemma_weight_exact(weights, (n - 1) as nat);
        lemma_weight_rises(weights, n, weights.len());
        lemma_weight_rises(weights, (n - 1) as nat, n);
    }
}

/// `w` is the squared distance of a row to the nearest of some centres.
pub open spec fn is_least_distance(w: Fixed, x: Seq<Fixed>, centres: Seq<Seq<Fixed>>) -> bool {
    &&& forall|j: int| 0 <= j < centres.len() ==> w.raw <= (#[trigger] sq_l2_of(x, centres[j])).raw
    &&& exists|j: int| 0 <= j < centres.len() && w == #[trigger] sq_l2_of(x, centres[j])
}

/// The weight of a row is its squared distance to the nearest seed, and the weights can
/// be summed up.
pub proof fn lemma_seed_weights(table: Seq<Seq<Fixed>>, dim: nat, c: nat, choices: Seq<Choice>)
    requires
        seedable(table, dim),
        1 <= c <= choices.len(),
        choices_below(choices, table.len()),
    ensures
        summable(seeds(table, c, choices).1),
        seeds(table, c, choices).1.len() == table.len(),
        forall|i: int|
            0 <= i < table.len() ==> is_least_distance(
                #[trigger] seeds(table, c, choices).1[i],
                table[i],
                seeds(table, c, choices).0,
            ),
    decreases c,
{
    lemma_seeds(table, c, choices);
    let now = seeds(table, c, choices);
    if c == 1 {
        let p = choices[0].0 as int;
        assert(choices[0].0 < table.len());
        assert forall|i: int| 0 <= i < table.len() implies is_least_distance(
            #[trigger] now.1[i],
            table[i],
            now.0,
        ) by {
            assert(now.1[i] == sq_l2_of(table[i], now.0[0]));
        }
    } else {
        let m = (c - 1) as nat;
        lemma_seed_weights(table, dim, m, choices);
        lemma_seeds(table, m, choices);
        let before = seeds(table, m, choices);
        let next = now.0[m as int];
        assert(table.contains(next));
        let at = choose|at: int| 0 <= at < table.len() && table[at] == next;
        let all = before.1;
        lemma_weight_exact(all, all.len());
        assert forall|i: int| 0 <= i < table.len() implies is_least_distance(
            #[trigger] now.1[i],
            table[i],
            now.0,
        ) by {
            assert(is_least_distance(all[i], table[i], before.0));
            lemma_row_distance(table, dim, i, at);
            if !weighty(all) {
                lemma_weight_rises(all, (i + 1) as nat, all.len());
                lemma_weight_rises(all, i as nat, i as nat);
                assert(all[i].raw >= 0);
                assert(all[i].raw == 0);
            }
            assert forall|j: int| 0 <= j < now.0.len() implies now.1[i].raw <= (
            #[trigger] sq_l2_of(table[i], now.0[j])).raw by {
                if j < m {
                    assert(now.0[j] == before.0[j]);
                    assert(all[i].raw <= sq_l2_of(table[i], before.0[j]).raw);
                }
            }
            if now.1[i] == sq_l2_of(table[i], next) {
                assert(now.1[i] == sq_l2_of(table[i], now.0[m as int]));
            } else {
                let j = choose|j: int|
                    0 <= j < before.0.len() && all[i] == #[trigger] sq_l2_of(
                        table[i],
                        before.0[j],
                    );
                assert(now.0[j] == before.0[j]);
                assert(now.1[i] == sq_l2_of(table[i], now.0[j]));
            }
        }
    }
    assert forall|i: int| 0 <= i < now.1.len() implies 0 <= (#[trigger] now.1[i]).raw
        <= 0x4_0000_0000 * dim by {
        assert(is_least_distance(now.1[i], table[i], now.0));
        let j = choose|j: int|
            0 <= j < now.0.len() && now.1[i] == #[trigger] sq_l2_of(table[i], now.0[j]);
        assert(table.contains(now.0[j]));
        let at = choose|at: int| 0 <= at < table.len() && table[at] == now.0[j];
        lemma_row_distance(table, dim, i, at);
    }
    lemma_weight_bound(now.1, dim, now.1.len());
}

proof fn lemma_reached(weights: Seq<Fixed>, target: Fixed, from: nat)
    requires
        summable(weights),
        from < weights.len(),
        target.raw <= exact_weight(weights, weights.len()),
        from == 0 || exact_weight(weights, from) < target.raw,
    ensures
        ({
            let p = reaching(weights, target, from);
            &&& from <= p < weights.len()
            &&& p == 0 || exact_weight(weights, p as nat) < target.raw
            &&& target.raw <= exact_weight(weights, (p + 1) as nat)
        }),
    decreases weights.len() - from,
{
    lemma_weight_exact(weights, from + 1);
    if less(weight_upto(weights, from + 1), target) {
        lemma_reached(weights, target, from + 1);
    }
}

/// `t` is `f / 2^23` of `total`, rounded down.
pub open spec fn is_point(t: int, f: int, total: int) -> bool {
    0 <= 0x80_0000 * t <= f * total < 0x80_0000 * t + 0x80_0000 + 0x80 * total
}

/// A row is drawn by weight: a word names a point on the line from zero to the sum of
/// all weights, and the row is that on whose stretch the point lies. The point is the
/// fraction of the way that the upper 23 bits of the word stand for, rounded down.
pub proof fn lemma_weighed(weights: Seq<Fixed>, word: u32)
    requires
        summable(weights),
        exact_weight(weights, weights.len()) > 0,
    ensures
        weighty(weights),
        ({
            let p = weighed(weights, word);
            let total = exact_weight(weights, weights.len());
            exists|t: int|
                {
                    &&& #[trigger] is_point(t, (word >> 9) as int, total)
                    &&& 0 <= p < weights.len()
                    &&& p == 0 || exact_weight(weights, p as nat) < t
                    &&& t <= exact_weight(weights, (p + 1) as nat)
                }
        }),
{
    let n = weights.len();
    let f = (word >> 9) as u64;
    lemma_weight_exact(weights, n);
    let total = weight_upto(weights, n);
    let w = total.raw as int;
    let u = Fixed::ratio_of(f, 0x80_0000);
    assert((word >> 9) < 0x80_0000u32) by (bit_vector);
    assert(u.raw == f / 0x80);
    let x = u.raw as int;
    assert(0 <= x < 0x1_0000);
    let xw = x * w;
    assert(0 <= xw <= 0x1_0000 * w) by (nonlinear_arith)
        requires
            xw == x * w,
            0 <= x <= 0x1_0000,
            w >= 0,
    ;
    lemma_times(u, total);
    let t = u.times_of(total);
    let fw = f * w;
    assert(0x80 * xw <= fw < 0x80 * xw + 0x80 * w) by (nonlinear_arith)
        requires
            xw == x * w,
            fw == f * w,
            0x80 * x <= f < 0x80 * x + 0x80,
            w > 0,
    ;
    assert(is_point(t.raw as int, f as int, w));
    lemma_reached(weights, t, 0);
}

/// A row lies on the stretch of the line of weights that holds point `t`.
pub open spec fn on_stretch(weights: Seq<Fixed>, p: int, t: int) -> bool {
    &&& 0 <= p < weights.len()
    &&& p == 0 || exact_weight(weights, p as nat) < t
    &&& t <= exact_weight(weights, (p + 1) as nat)
}

/// Each further seed is a row that is drawn in proportion to the squared distances of
/// the rows to the seeds before it; where all of these are zero, it is a row that is
/// drawn evenly.
pub proof fn lemma_next_seed(table: Seq<Seq<Fixed>>, dim: nat, c: nat, choices: Seq<Choice>)
    requires
        seedable(table, dim),
        2 <= c <= choices.len(),
        choices_below(choices, table.len()),
    ensures
        ({
            let before = seeds(table, (c - 1) as nat, choices);
            let now = seeds(table, c, choices);
            let total = exact_weight(before.1, table.len());
            if total > 0 {
                exists|p: int, t: int|
                    #[trigger] on_stretch(before.1, p, t) && is_point(
                        t,
                        (choices[c - 1].1 >> 9) as int,
                        total,
                    ) && now.0[c - 1] == table[p]
            } else {
                now.0[c - 1] == table[choices[c - 1].0 as int]
            }
        }),
{
    let m = (c - 1) as nat;
    let before = seeds(table, m, choices);
    let now = seeds(table, c, choices);
    let total = exact_weight(before.1, table.len());
    lemma_seeds(table, m, choices);
    lemma_seed_weights(table, dim, m, choices);
    lemma_weight_exact(before.1, before.1.len());
    if total > 0 {
        let word = choices[c - 1].1;
        lemma_weighed(before.1, word);
        let p = weighed(before.1, word);
        let t = choose|t: int|
            {
                &&& #[trigger] is_point(t, (word >> 9) as int, total)
                &&& 0 <= p < before.1.len()
                &&& p == 0 || exact_weight(before.1, p as nat) < t
                &&& t <= exact_weight(before.1, (p + 1) as nat)
            };
        assert(on_stretch(before.1, p, t));
        assert(now.0[c - 1] == table[p]);
    }
}

} // verus!
