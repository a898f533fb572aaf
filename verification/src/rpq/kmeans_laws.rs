//! What training achieves, over fixed-point numbers.

use vstd::prelude::*;

use crate::cluster::{assigned, centre_of, members};
use crate::lloyd::{
    are_means, cost, counted, lemma_any_sum, lemma_assigned_nearest, lemma_centre_is_mean,
    lemma_counted, lemma_iteration_improves, nearest_to, sums_below, table_bounded,
};
use crate::rpq::kmeans::{drawn_row, lemma_seeded, lemma_trained, refreshed, seeded, trained};
use crate::rpq::rng::rng_step;
use crate::scalar::{Fixed, Scalar};

verus! {

/// Every new centre of an iteration is that of its rows, or a row where it has none.
proof fn lemma_refreshed_each<R: Scalar>(
    table: Seq<Seq<R>>,
    assign: Seq<usize>,
    dim: nat,
    k: nat,
    s: u64,
    c: int,
)
    requires
        table.len() > 0,
        0 <= c < k <= usize::MAX,
    ensures
        ({
            let fresh = refreshed(table, assign, dim, k, s).0;
            &&& fresh.len() == k
            &&& members(assign, c as usize, table.len()) > 0 ==> fresh[c] == centre_of(
                table,
                assign,
                c as usize,
                dim,
            )
            &&& members(assign, c as usize, table.len()) == 0 ==> table.contains(fresh[c])
        }),
    decreases k,
{
    let m = (k - 1) as nat;
    let before = refreshed(table, assign, dim, m, s);
    if m > 0 {
        let b = if c < m {
            c
        } else {
            0
        };
        lemma_refreshed_each(table, assign, dim, m, s, b);
    }
    if c == m {
        let p = drawn_row(rng_step(before.1), table.len());
        assert(0 <= p < table.len());
        assert(table.contains(table[p]));
    }
}

/// Centres stay within the bounds of the rows.
pub proof fn lemma_trained_bounded(
    table: Seq<Seq<Fixed>>,
    dim: nat,
    k: nat,
    iters: nat,
    s: u64,
)
    requires
        table_bounded(table, dim),
        table.len() > 0,
        dim <= 0x4000,
        1 <= k <= 0x8000_0000,
    ensures
        trained::<Fixed, Fixed>(table, dim, k, iters, s).0.len() == k,
        table_bounded(trained::<Fixed, Fixed>(table, dim, k, iters, s).0, dim),
{
    let out = trained::<Fixed, Fixed>(table, dim, k, iters, s).0;
    lemma_trained::<Fixed, Fixed>(table, dim, k, iters, s);
    assert forall|c: int| 0 <= c < k implies crate::exact::bounded(
        #[trigger] out[c],
        0x8000_0000,
    ) by {
        if iters == 0 {
            lemma_seeded::<Fixed, Fixed>(table, k, s);
            assert(table.contains(seeded::<Fixed, Fixed>(table, k, s).centres[c]));
        } else {
            let before = trained::<Fixed, Fixed>(table, dim, k, (iters - 1) as nat, s);
            let assign = assigned(table, before.0);
            lemma_refreshed_each(table, assign, dim, k, before.1, c);
            lemma_counted(assign, c as usize, table.len());
            lemma_any_sum(table, assign, k, dim);
            if members(assign, c as usize, table.len()) > 0 {
                lemma_centre_is_mean(table, assign, c as usize, dim, k, 0x4000_0000_0000);
            }
        }
    }
}

/// After an iteration each centre to which rows are assigned, by their distances to
/// the centres before it, is the mean of these rows; one without rows is a row. `f`
/// bounds the sums of the rows in units of 2^16, on which the rounding of the means
/// depends.
pub proof fn lemma_kmeans_means(
    table: Seq<Seq<Fixed>>,
    dim: nat,
    k: nat,
    iters: nat,
    s: u64,
    f: nat,
)
    requires
        table_bounded(table, dim),
        table.len() > 0,
        dim <= 0x4000,
        1 <= k <= 0x8000_0000,
        iters >= 1,
        sums_below(
            table,
            assigned(table, trained::<Fixed, Fixed>(table, dim, k, (iters - 1) as nat, s).0),
            k,
            dim,
            f,
        ),
    ensures
        ({
            let before = trained::<Fixed, Fixed>(table, dim, k, (iters - 1) as nat, s).0;
            let after = trained::<Fixed, Fixed>(table, dim, k, iters, s).0;
            let assign = assigned(table, before);
            &&& nearest_to(table, before, assign)
            &&& after.len() == k
            &&& are_means(table, assign, after, dim, f + 1)
            &&& forall|c: int|
                0 <= c < k && counted(assign, c, table.len()) == 0 ==> table.contains(
                    #[trigger] after[c],
                )
        }),
{
    let before = trained::<Fixed, Fixed>(table, dim, k, (iters - 1) as nat, s);
    let after = trained::<Fixed, Fixed>(table, dim, k, iters, s).0;
    let assign = assigned(table, before.0);
    lemma_trained_bounded(table, dim, k, (iters - 1) as nat, s);
    lemma_trained_bounded(table, dim, k, iters, s);
    lemma_assigned_nearest(table, before.0, dim);
    assert forall|c: int| 0 <= c < k implies (counted(assign, c, table.len()) > 0
        ==> crate::lloyd::is_mean(table, assign, #[trigger] after[c], c, dim, f + 1)) && (counted(
        assign,
        c,
        table.len(),
    ) == 0 ==> table.contains(after[c])) by {
        lemma_refreshed_each(table, assign, dim, k, before.1, c);
        lemma_counted(assign, c as usize, table.len());
        if counted(assign, c, table.len()) > 0 {
            lemma_centre_is_mean(table, assign, c as usize, dim, k, f);
        }
    }
}

/// No iteration makes the total squared distance of the rows to their nearest centres
/// grow, but for rounding.
pub proof fn lemma_kmeans_improves(
    table: Seq<Seq<Fixed>>,
    dim: nat,
    k: nat,
    iters: nat,
    s: u64,
    f: nat,
)
    requires
        table_bounded(table, dim),
        table.len() > 0,
        dim <= 0x4000,
        1 <= k <= 0x8000_0000,
        iters >= 1,
        sums_below(
            table,
            assigned(table, trained::<Fixed, Fixed>(table, dim, k, (iters - 1) as nat, s).0),
            k,
            dim,
            f,
        ),
    ensures
        cost(table, trained::<Fixed, Fixed>(table, dim, k, iters, s).0, dim, table.len()) <= cost(
            table,
            trained::<Fixed, Fixed>(table, dim, k, (iters - 1) as nat, s).0,
            dim,
            table.len(),
        ) + table.len() * (dim * ((f + 1) * (f + 1))) + table.len() * (0x1_0000 * dim),
{
    let before = trained::<Fixed, Fixed>(table, dim, k, (iters - 1) as nat, s).0;
    let after = trained::<Fixed, Fixed>(table, dim, k, iters, s).0;
    lemma_kmeans_means(table, dim, k, iters, s, f);
    lemma_trained_bounded(table, dim, k, (iters - 1) as nat, s);
    lemma_iteration_improves(table, before, after, assigned(table, before), dim, f + 1);
}

/// Where an iteration leaves every row with its centre, each centre is the mean of the
/// rows that are nearest to it.
pub proof fn lemma_kmeans_stable(
    table: Seq<Seq<Fixed>>,
    dim: nat,
    k: nat,
    iters: nat,
    s: u64,
    f: nat,
)
    requires
        table_bounded(table, dim),
        table.len() > 0,
        dim <= 0x4000,
        1 <= k <= 0x8000_0000,
        iters >= 1,
        assigned(table, trained::<Fixed, Fixed>(table, dim, k, iters, s).0) == assigned(
            table,
            trained::<Fixed, Fixed>(table, dim, k, (iters - 1) as nat, s).0,
        ),
        sums_below(
            table,
            assigned(table, trained::<Fixed, Fixed>(table, dim, k, iters, s).0),
            k,
            dim,
            f,
        ),
    ensures
        ({
            let after = trained::<Fixed, Fixed>(table, dim, k, iters, s).0;
            let assign = assigned(table, after);
            nearest_to(table, after, assign) && are_means(table, assign, after, dim, f + 1)
        }),
{
    lemma_kmeans_means(table, dim, k, iters, s, f);
    lemma_trained_bounded(table, dim, k, iters, s);
    lemma_assigned_nearest(table, trained::<Fixed, Fixed>(table, dim, k, iters, s).0, dim);
}

} // verus!
