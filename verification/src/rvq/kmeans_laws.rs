//! What training a codebook achieves, over fixed-point numbers.

use vstd::prelude::*;

use crate::cluster::{assigned, members};
use crate::lloyd::{
    are_means, cost, counted, lemma_any_sum, lemma_assigned_nearest, lemma_centre_is_mean,
    lemma_counted, lemma_iteration_improves, nearest_to, sums_below, table_bounded,
};
use crate::rvq::kmeans::{
    choices_below, fill_below, fills_below, lemma_seeds, lemma_trained, refreshed, seeds, trained,
    Choice,
};
use crate::scalar::{Fixed, Scalar};

verus! {

/// There are rows, and what was drawn names rows for the seeds and for the centres
/// without rows.
pub open spec fn trainable(
    table: Seq<Seq<Fixed>>,
    dim: nat,
    k: nat,
    iters: nat,
    choices: Seq<Choice>,
    fills: Seq<Seq<usize>>,
) -> bool {
    &&& table_bounded(table, dim)
    &&& table.len() > 0
    &&& dim <= 0x4000
    &&& 1 <= k == choices.len()
    &&& k <= 0x8000_0000
    &&& choices_below(choices, table.len())
    &&& iters <= fills.len()
    &&& fills_below(fills, k, table.len())
}

/// Centres stay within the bounds of the rows.
pub proof fn lemma_trained_bounded(
    table: Seq<Seq<Fixed>>,
    dim: nat,
    k: nat,
    iters: nat,
    choices: Seq<Choice>,
    fills: Seq<Seq<usize>>,
)
    requires
        trainable(table, dim, k, iters, choices, fills),
    ensures
        trained(table, dim, k, iters, choices, fills).len() == k,
        table_bounded(trained(table, dim, k, iters, choices, fills), dim),
{
    let out = trained(table, dim, k, iters, choices, fills);
    lemma_trained(table, dim, k, iters, choices, fills);
    assert forall|c: int| 0 <= c < k implies crate::exact::bounded(
        #[trigger] out[c],
        0x8000_0000,
    ) by {
        if iters == 0 {
            lemma_seeds(table, k, choices);
            assert(table.contains(seeds(table, k, choices).0[c]));
        } else {
            let before = trained(table, dim, k, (iters - 1) as nat, choices, fills);
            let assign = assigned(table, before);
            let fill = fills[iters - 1];
            assert(fill.len() == k && fill_below(fill, table.len()));
            assert(fill[c] < table.len());
            lemma_counted(assign, c as usize, table.len());
            lemma_any_sum(table, assign, k, dim);
            if members(assign, c as usize, table.len()) > 0 {
                lemma_centre_is_mean(table, assign, c as usize, dim, k, 0x4000_0000_0000);
            }
        }
    }
}

/// After an iteration each centre to which rows are assigned, by their distances to
/// the centres before it, is the mean of these rows; one without rows is a row. `f`
/// bounds the sums of the rows in units of 2^16, on which the rounding of the means
/// depends.
pub proof fn lemma_kmeans_means(
    table: Seq<Seq<Fixed>>,
    dim: nat,
    k: nat,
    iters: nat,
    choices: Seq<Choice>,
    fills: Seq<Seq<usize>>,
    f: nat,
)
    requires
        trainable(table, dim, k, iters, choices, fills),
        iters >= 1,
        sums_below(
            table,
            assigned(table, trained(table, dim, k, (iters - 1) as nat, choices, fills)),
            k,
            dim,
            f,
        ),
    ensures
        ({
            let before = trained(table, dim, k, (iters - 1) as nat, choices, fills);
            let after = trained(table, dim, k, iters, choices, fills);
            let assign = assigned(table, before);
            &&& nearest_to(table, before, assign)
            &&& after.len() == k
            &&& are_means(table, assign, after, dim, f + 1)
            &&& forall|c: int|
                0 <= c < k && counted(assign, c, table.len()) == 0 ==> table.contains(
                    #[trigger] after[c],
                )
        }),
{
    let before = trained(table, dim, k, (iters - 1) as nat, choices, fills);
    let after = trained(table, dim, k, iters, choices, fills);
    let assign = assigned(table, before);
    let fill = fills[iters - 1];
    assert(fill.len() == k && fill_below(fill, table.len()));
    assert(after == refreshed(table, assign, dim, fill));
    lemma_trained_bounded(table, dim, k, (iters - 1) as nat, choices, fills);
    lemma_assigned_nearest(table, before, dim);
    assert forall|c: int| 0 <= c < k implies (counted(assign, c, table.len()) > 0
        ==> crate::lloyd::is_mean(table, assign, #[trigger] after[c], c, dim, f + 1)) && (counted(
        assign,
        c,
        table.len(),
    ) == 0 ==> table.contains(after[c])) by {
        lemma_counted(assign, c as usize, table.len());
        assert(fill[c] < table.len());
        assert(table.contains(table[fill[c] as int]));
        if counted(assign, c, table.len()) > 0 {
            lemma_centre_is_mean(table, assign, c as usize, dim, k, f);
        }
    }
}

/// No iteration makes the total squared distance of the rows to their nearest centres
/// grow, but for rounding.
pub proof fn lemma_kmeans_improves(
    table: Seq<Seq<Fixed>>,
    dim: nat,
    k: nat,
    iters: nat,
    choices: Seq<Choice>,
    fills: Seq<Seq<usize>>,
    f: nat,
)
    requires
        trainable(table, dim, k, iters, choices, fills),
        iters >= 1,
        sums_below(
            table,
            assigned(table, trained(table, dim, k, (iters - 1) as nat, choices, fills)),
            k,
            dim,
            f,
        ),
    ensures
        cost(table, trained(table, dim, k, iters, choices, fills), dim, table.len()) <= cost(
            table,
            trained(table, dim, k, (iters - 1) as nat, choices, fills),
            dim,
            table.len(),
        ) + table.len() * (dim * ((f + 1) * (f + 1))) + table.len() * (0x1_0000 * dim),
{
    let before = trained(table, dim, k, (iters - 1) as nat, choices, fills);
    let after = trained(table, dim, k, iters, choices, fills);
    lemma_kmeans_means(table, dim, k, iters, choices, fills, f);
    lemma_trained_bounded(table, dim, k, (iters - 1) as nat, choices, fills);
    lemma_iteration_improves(table, before, after, assigned(table, before), dim, f + 1);
}

/// Where an iteration leaves every row with its centre, each centre is the mean of the
/// rows that are nearest to it.
pub proof fn lemma_kmeans_stable(
    table: Seq<Seq<Fixed>>,
    dim: nat,
    k: nat,
    iters: nat,
    choices: Seq<Choice>,
    fills: Seq<Seq<usize>>,
    f: nat,
)
    requires
        trainable(table, dim, k, iters, choices, fills),
        iters >= 1,
        assigned(table, trained(table, dim, k, iters, choices, fills)) == assigned(
            table,
            trained(table, dim, k, (iters - 1) as nat, choices, fills),
        ),
        sums_below(
            table,
            assigned(table, trained(table, dim, k, iters, choices, fills)),
            k,
            dim,
            f,
        ),
    ensures
        ({
            let after = trained(table, dim, k, iters, choices, fills);
            let assign = assigned(table, after);
            nearest_to(table, after, assign) && are_means(table, assign, after, dim, f + 1)
        }),
{
    lemma_kmeans_means(table, dim, k, iters, choices, fills, f);
    lemma_trained_bounded(table, dim, k, iters, choices, fills);
    lemma_assigned_nearest(table, trained(table, dim, k, iters, choices, fills), dim);
}

} // verus!
