//! What training the centroids achieves, over fixed-point numbers.

use vstd::prelude::*;

use crate::cluster::{assigned, members};
use crate::exact::{bounded, lemma_over};
use crate::lloyd::{
    are_means, column_sum, cost, counted, is_mean, lemma_assigned_nearest, lemma_column_sum_bound,
    lemma_counted, lemma_iteration_improves, nearest_to, table_bounded,
};
use crate::scalar::{whole, Fixed, Scalar, Widen};
use crate::soar_ivf::dataset::lcg_step;
use crate::soar_ivf::ivf_common::{
    drawn_row, lemma_trained, mean_of, refreshed, trained, wide_sum, widened_row,
};

verus! {

proof fn lemma_refreshed_each<R: Scalar + Widen<W>, W: Scalar>(
    table: Seq<Seq<R>>,
    assign: Seq<usize>,
    dim: nat,
    k: nat,
    s: u64,
    c: int,
)
    requires
        0 < table.len() <= usize::MAX,
        0 <= c < k <= usize::MAX,
    ensures
        ({
            let fresh = refreshed::<R, W>(table, assign, dim, k, s).0;
            &&& fresh.len() == k
            &&& members(assign, c as usize, table.len()) > 0 ==> fresh[c] == mean_of::<R, W>(
                table,
                assign,
                c as usize,
                dim,
            )
            &&& members(assign, c as usize, table.len()) == 0 ==> table.contains(fresh[c])
        }),
    decreases k,
{
    let m = (k - 1) as nat;
    let before = refreshed::<R, W>(table, assign, dim, m, s);
    if m > 0 {
        let b = if c < m {
            c
        } else {
            0
        };
        lemma_refreshed_each::<R, W>(table, assign, dim, m, s, b);
    }
    if c == m {
        let p = drawn_row(lcg_step(before.1), table.len());
        assert(0 <= p < table.len());
        assert(table.contains(table[p]));
    }
}

proof fn lemma_wide_sum_exact(
    table: Seq<Seq<Fixed>>,
    assign: Seq<usize>,
    c: usize,
    dim: nat,
    n: nat,
)
    requires
        table_bounded(table, dim),
        n <= table.len(),
    ensures
        wide_sum::<Fixed, Fixed>(table, assign, c, dim, n).len() == dim,
        forall|d: int|
            0 <= d < dim ==> (#[trigger] wide_sum::<Fixed, Fixed>(table, assign, c, dim, n)[d]).raw
                == column_sum(table, assign, c as int, d, n),
    decreases n,
{
    if n > 0 {
        let m = (n - 1) as nat;
        lemma_wide_sum_exact(table, assign, c, dim, m);
        let rest = wide_sum::<Fixed, Fixed>(table, assign, c, dim, m);
        let x = table[m as int];
        assert(x.len() == dim);
        assert(bounded(x, 0x8000_0000));
        assert(widened_row::<Fixed, Fixed>(x) =~= x);
        assert forall|d: int| 0 <= d < dim implies (#[trigger] wide_sum::<Fixed, Fixed>(
            table,
            assign,
            c,
            dim,
            n,
        )[d]).raw == column_sum(table, assign, c as int, d, n) by {
            lemma_column_sum_bound(table, assign, c as int, d, dim, m);
            assert(rest[d].raw == column_sum(table, assign, c as int, d, m));
            assert(-0x8000_0000 <= x[d].raw <= 0x8000_0000);
        }
    }
}

/// The centroid that an iteration computes is the mean of the rows that are assigned
/// to it, with a unit of rounding.
pub proof fn lemma_mean_exact(table: Seq<Seq<Fixed>>, assign: Seq<usize>, c: usize, dim: nat)
    requires
        table_bounded(table, dim),
        dim <= 0x4000,
        counted(assign, c as int, table.len()) > 0,
    ensures
        is_mean(
            table,
            assign,
            mean_of::<Fixed, Fixed>(table, assign, c, dim),
            c as int,
            dim,
            1,
        ),
        mean_of::<Fixed, Fixed>(table, assign, c, dim).len() == dim,
        bounded(mean_of::<Fixed, Fixed>(table, assign, c, dim), 0x8000_0000),
{
    let n = table.len();
    let mean = mean_of::<Fixed, Fixed>(table, assign, c, dim);
    let total = wide_sum::<Fixed, Fixed>(table, assign, c, dim, n);
    lemma_counted(assign, c, n);
    lemma_wide_sum_exact(table, assign, c, dim, n);
    let count = counted(assign, c as int, n);
    assert forall|d: int| 0 <= d < dim implies -(count * 1) <= count * (#[trigger] mean[d]).raw
        - column_sum(table, assign, c as int, d, n) <= count * 1 && -0x8000_0000 <= mean[d].raw
        <= 0x8000_0000 by {
        lemma_column_sum_bound(table, assign, c as int, d, dim, n);
        let t = total[d];
        assert(t.raw == column_sum(table, assign, c as int, d, n));
        let w = whole::<Fixed>(count as u64);
        assert(w.raw == count * 0x1_0000);
        lemma_over(t, w);
        let m = mean[d].raw as int;
        assert(m == t.over_of(w).raw);
        let cm = count * m;
        assert(m * w.raw == 0x1_0000 * cm) by (nonlinear_arith)
            requires
                w.raw == count * 0x1_0000,
                cm == count * m,
        ;
        assert(-0x8000_0000 <= m <= 0x8000_0000) by (nonlinear_arith)
            requires
                count > 0,
                -0x8000_0000 * count <= count * m <= 0x8000_0000 * count,
        ;
    }
}

/// Centroids stay within the bounds of the rows.
pub proof fn lemma_trained_bounded(table: Seq<Seq<Fixed>>, dim: nat, k: nat, iters: nat, s: u64)
    requires
        table_bounded(table, dim),
        table.len() > 0,
        dim <= 0x4000,
        1 <= k <= 0x8000_0000,
    ensures
        trained::<Fixed, Fixed>(table, dim, k, iters, s).0.len() == k,
        table_bounded(trained::<Fixed, Fixed>(table, dim, k, iters, s).0, dim),
{
    let out = trained::<Fixed, Fixed>(table, dim, k, iters, s).0;
    lemma_trained::<Fixed, Fixed>(table, dim, k, iters, s);
    assert forall|c: int| 0 <= c < k implies bounded(#[trigger] out[c], 0x8000_0000) by {
        if iters == 0 {
            let p = drawn_row(crate::soar_ivf::dataset::lcg_after(s, (c + 1) as nat), table.len());
            assert(0 <= p < table.len());
            assert(out[c] == table[p]);
        } else {
            let before = trained::<Fixed, Fixed>(table, dim, k, (iters - 1) as nat, s);
            let assign = assigned(table, before.0);
            lemma_refreshed_each::<Fixed, Fixed>(table, assign, dim, k, before.1, c);
            lemma_counted(assign, c as usize, table.len());
            if members(assign, c as usize, table.len()) > 0 {
                lemma_mean_exact(table, assign, c as usize, dim);
            }
        }
    }
}

/// After an iteration each centroid to which rows are assigned, by their distances to
/// the centroids before it, is the mean of these rows; one without rows is a row.
pub proof fn lemma_training_means(table: Seq<Seq<Fixed>>, dim: nat, k: nat, iters: nat, s: u64)
    requires
        table_bounded(table, dim),
        table.len() > 0,
        dim <= 0x4000,
        1 <= k <= 0x8000_0000,
        iters >= 1,
    ensures
        ({
            let before = trained::<Fixed, Fixed>(table, dim, k, (iters - 1) as nat, s).0;
            let after = trained::<Fixed, Fixed>(table, dim, k, iters, s).0;
            let assign = assigned(table, before);
            &&& nearest_to(table, before, assign)
            &&& after.len() == k
            &&& are_means(table, assign, after, dim, 1)
            &&& forall|c: int|
                0 <= c < k && counted(assign, c, table.len()) == 0 ==> table.contains(
                    #[trigger] after[c],
                )
        }),
{
    let before = trained::<Fixed, Fixed>(table, dim, k, (iters - 1) as nat, s);
    let after = trained::<Fixed, Fixed>(table, dim, k, iters, s).0;
    let assign = assigned(table, before.0);
    lemma_trained_bounded(table, dim, k, (iters - 1) as nat, s);
    lemma_trained_bounded(table, dim, k, iters, s);
    lemma_assigned_nearest(table, before.0, dim);
    assert forall|c: int| 0 <= c < k implies (counted(assign, c, table.len()) > 0 ==> is_mean(
        table,
        assign,
        #[trigger] after[c],
        c,
        dim,
        1,
    )) && (counted(assign, c, table.len()) == 0 ==> table.contains(after[c])) by {
        lemma_refreshed_each::<Fixed, Fixed>(table, assign, dim, k, before.1, c);
        lemma_counted(assign, c as usize, table.len());
        if counted(assign, c, table.len()) > 0 {
            lemma_mean_exact(table, assign, c as usize, dim);
        }
    }
}

/// No iteration makes the total squared distance of the rows to their nearest
/// centroids grow, but for rounding.
pub proof fn lemma_training_improves(table: Seq<Seq<Fixed>>, dim: nat, k: nat, iters: nat, s: u64)
    requires
        table_bounded(table, dim),
        table.len() > 0,
        dim <= 0x4000,
        1 <= k <= 0x8000_0000,
        iters >= 1,
    ensures
        cost(table, trained::<Fixed, Fixed>(table, dim, k, iters, s).0, dim, table.len()) <= cost(
            table,
            trained::<Fixed, Fixed>(table, dim, k, (iters - 1) as nat, s).0,
            dim,
            table.len(),
        ) + table.len() * (0x1_0001 * dim),
{
    let before = trained::<Fixed, Fixed>(table, dim, k, (iters - 1) as nat, s).0;
    let after = trained::<Fixed, Fixed>(table, dim, k, iters, s).0;
    let n = table.len();
    lemma_training_means(table, dim, k, iters, s);
    lemma_trained_bounded(table, dim, k, (iters - 1) as nat, s);
    lemma_iteration_improves(table, before, after, assigned(table, before), dim, 1);
    assert(n * (dim * (1nat * 1nat)) + n * (0x1_0000 * dim) == n * (0x1_0001 * dim))
        by (nonlinear_arith);
}

/// Where an iteration leaves every row with its centroid, each centroid is the mean of
/// the rows that are nearest to it.
pub proof fn lemma_training_stable(table: Seq<Seq<Fixed>>, dim: nat, k: nat, iters: nat, s: u64)
    requires
        table_bounded(table, dim),
        table.len() > 0,
        dim <= 0x4000,
        1 <= k <= 0x8000_0000,
        iters >= 1,
        assigned(table, trained::<Fixed, Fixed>(table, dim, k, iters, s).0) == assigned(
            table,
            trained::<Fixed, Fixed>(table, dim, k, (iters - 1) as nat, s).0,
        ),
    ensures
        ({
            let after = trained::<Fixed, Fixed>(table, dim, k, iters, s).0;
            let assign = assigned(table, after);
            nearest_to(table, after, assign) && are_means(table, assign, after, dim, 1)
        }),
{
    lemma_training_means(table, dim, k, iters, s);
    lemma_trained_bounded(table, dim, k, iters, s);
    lemma_assigned_nearest(table, trained::<Fixed, Fixed>(table, dim, k, iters, s).0, dim);
}

} // verus!
