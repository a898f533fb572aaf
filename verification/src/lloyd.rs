//! What an iteration of k-means achieves, over fixed-point numbers.
//!
//! Rows are assigned to their nearest centres, and the centres then move to the means
//! of their rows. The sums of this module are taken over whole numbers and are not
//! rounded.

use vstd::prelude::*;

use crate::cluster::{
    assigned, centre_of, lemma_nearest_centre, member_sum, members, nearest_centre, nearest_upto,
};
use crate::exact::{bounded, close, gaps, lemma_over, lemma_sq_l2_exact, lemma_times, size_of};
use crate::flat::rectangular;
use crate::linalg::sq_l2_of;
use crate::scalar::{less, whole, Fixed, Scalar};

verus! {

/// The number of the first `n` rows that are assigned to `c`.
pub open spec fn counted(assign: Seq<usize>, c: int, n: nat) -> int
    decreases n,
{
    if n == 0 {
        0
    } else {
        counted(assign, c, (n - 1) as nat) + if assign[n - 1] == c {
            1int
        } else {
            0
        }
    }
}

/// Component `d` of those of the first `n` rows that are assigned to `c`, summed up.
pub open spec fn column_sum(
    table: Seq<Seq<Fixed>>,
    assign: Seq<usize>,
    c: int,
    d: int,
    n: nat,
) -> int
    decreases n,
{
    if n == 0 {
        0
    } else {
        column_sum(table, assign, c, d, (n - 1) as nat) + if assign[n - 1] == c {
            table[n - 1][d].raw as int
        } else {
            0
        }
    }
}

/// There are no more than 2^31 rows, of `dim` components no farther than 2^15 from
/// zero.
pub open spec fn table_bounded(table: Seq<Seq<Fixed>>, dim: nat) -> bool {
    &&& table.len() <= 0x8000_0000
    &&& rectangular(table, dim)
    &&& forall|i: int| 0 <= i < table.len() ==> bounded(#[trigger] table[i], 0x8000_0000)
}

/// Every row is assigned to a centre, and no other centre is nearer to it.
pub open spec fn nearest_to(
    table: Seq<Seq<Fixed>>,
    centres: Seq<Seq<Fixed>>,
    assign: Seq<usize>,
) -> bool {
    &&& assign.len() == table.len()
    &&& forall|i: int| 0 <= i < assign.len() ==> (#[trigger] assign[i]) < centres.len()
    &&& forall|i: int, c: int|
        0 <= i < table.len() && 0 <= c < centres.len() ==> sq_l2_of(
            table[i],
            centres[assign[i] as int],
        ).raw <= (#[trigger] sq_l2_of(table[i], centres[c])).raw
}

/// Centre `c` is the mean of the rows that are assigned to it: times their number, it
/// is their sum, with a tolerance of `f` units for each of them.
pub open spec fn is_mean(
    table: Seq<Seq<Fixed>>,
    assign: Seq<usize>,
    centre: Seq<Fixed>,
    c: int,
    dim: nat,
    f: nat,
) -> bool {
    forall|d: int|
        0 <= d < dim ==> {
            let count = counted(assign, c, table.len());
            let total = column_sum(table, assign, c, d, table.len());
            -(count * f) <= count * (#[trigger] centre[d]).raw - total <= count * f
        }
}

/// Every centre that rows are assigned to is the mean of these.
pub open spec fn are_means(
    table: Seq<Seq<Fixed>>,
    assign: Seq<usize>,
    centres: Seq<Seq<Fixed>>,
    dim: nat,
    f: nat,
) -> bool {
    forall|c: int|
        0 <= c < centres.len() && counted(assign, c, table.len()) > 0 ==> is_mean(
            table,
            assign,
            #[trigger] centres[c],
            c,
            dim,
            f,
        )
}

/// No sum over the rows of a centre is farther than `f` from zero, in units of 2^16.
pub open spec fn sums_below(
    table: Seq<Seq<Fixed>>,
    assign: Seq<usize>,
    k: nat,
    dim: nat,
    f: nat,
) -> bool {
    forall|c: int, d: int|
        0 <= c < k && 0 <= d < dim ==> close(
            #[trigger] column_sum(table, assign, c, d, table.len()),
            0,
            0x1_0000 * f,
        )
}

/// The sum of squared differences between a row and the nearest of the first `n`
/// centres.
pub open spec fn least_gap(x: Seq<Fixed>, centres: Seq<Seq<Fixed>>, dim: nat, n: nat) -> int
    decreases n,
{
    let here = gaps(x, centres[n - 1], dim);
    if n <= 1 {
        here
    } else {
        let rest = least_gap(x, centres, dim, (n - 1) as nat);
        if here < rest {
            here
        } else {
            rest
        }
    }
}

/// The squared distances of the first `n` rows to their nearest centres, summed up.
pub open spec fn cost(table: Seq<Seq<Fixed>>, centres: Seq<Seq<Fixed>>, dim: nat, n: nat) -> int
    decreases n,
{
    if n == 0 {
        0
    } else {
        cost(table, centres, dim, (n - 1) as nat) + least_gap(
            table[n - 1],
            centres,
            dim,
            centres.len(),
        )
    }
}

/// The squared distances of the first `n` rows to the centres that they are assigned
/// to, summed up.
spec fn assigned_cost(
    table: Seq<Seq<Fixed>>,
    centres: Seq<Seq<Fixed>>,
    assign: Seq<usize>,
    dim: nat,
    n: nat,
) -> int
    decreases n,
{
    if n == 0 {
        0
    } else {
        assigned_cost(table, centres, assign, dim, (n - 1) as nat) + gaps(
            table[n - 1],
            centres[assign[n - 1] as int],
            dim,
        )
    }
}

/// The squared distances to `centre` of those of the first `n` rows that are assigned
/// to `c`, over the first `dim` components.
spec fn cluster_cost(
    table: Seq<Seq<Fixed>>,
    centre: Seq<Fixed>,
    assign: Seq<usize>,
    c: int,
    dim: nat,
    n: nat,
) -> int
    decreases n,
{
    if n == 0 {
        0
    } else {
        cluster_cost(table, centre, assign, c, dim, (n - 1) as nat) + if assign[n - 1] == c {
            gaps(table[n - 1], centre, dim)
        } else {
            0
        }
    }
}

/// The costs of the first `k` clusters.
spec fn clusters_cost(
    table: Seq<Seq<Fixed>>,
    centres: Seq<Seq<Fixed>>,
    assign: Seq<usize>,
    dim: nat,
    n: nat,
    k: nat,
) -> int
    decreases k,
{
    if k == 0 {
        0
    } else {
        clusters_cost(table, centres, assign, dim, n, (k - 1) as nat) + cluster_cost(
            table,
            centres[k - 1],
            assign,
            k - 1,
            dim,
            n,
        )
    }
}

/// The number of the first `n` rows that are assigned to one of the first `k` centres.
spec fn clusters_count(assign: Seq<usize>, n: nat, k: nat) -> int
    decreases k,
{
    if k == 0 {
        0
    } else {
        clusters_count(assign, n, (k - 1) as nat) + counted(assign, k - 1, n)
    }
}

/// One more row belongs to one cluster.
proof fn lemma_clusters_step(
    table: Seq<Seq<Fixed>>,
    centres: Seq<Seq<Fixed>>,
    assign: Seq<usize>,
    dim: nat,
    n: nat,
    k: nat,
)
    requires
        n > 0,
    ensures
        clusters_cost(table, centres, assign, dim, n, k) == clusters_cost(
            table,
            centres,
            assign,
            dim,
            (n - 1) as nat,
            k,
        ) + if assign[n - 1] < k {
            gaps(table[n - 1], centres[assign[n - 1] as int], dim)
        } else {
            0
        },
        clusters_count(assign, n, k) == clusters_count(assign, (n - 1) as nat, k) + if assign[n - 1]
            < k {
            1int
        } else {
            0
        },
    decreases k,
{
    if k > 0 {
        lemma_clusters_step(table, centres, assign, dim, n, (k - 1) as nat);
    }
}

proof fn lemma_no_rows(
    table: Seq<Seq<Fixed>>,
    centres: Seq<Seq<Fixed>>,
    assign: Seq<usize>,
    dim: nat,
    k: nat,
)
    ensures
        clusters_cost(table, centres, assign, dim, 0, k) == 0,
        clusters_count(assign, 0, k) == 0,
    decreases k,
{
    if k > 0 {
        lemma_no_rows(table, centres, assign, dim, (k - 1) as nat);
    }
}

/// The rows can be taken cluster by cluster.
proof fn lemma_by_clusters(
    table: Seq<Seq<Fixed>>,
    centres: Seq<Seq<Fixed>>,
    assign: Seq<usize>,
    dim: nat,
    n: nat,
    k: nat,
)
    requires
        n <= assign.len(),
        forall|i: int| 0 <= i < assign.len() ==> (#[trigger] assign[i]) < k,
    ensures
        assigned_cost(table, centres, assign, dim, n) == clusters_cost(
            table,
            centres,
            assign,
            dim,
            n,
            k,
        ),
        clusters_count(assign, n, k) == n,
    decreases n,
{
    if n == 0 {
        lemma_no_rows(table, centres, assign, dim, k);
    } else {
        lemma_by_clusters(table, centres, assign, dim, (n - 1) as nat, k);
        lemma_clusters_step(table, centres, assign, dim, n, k);
        assert(assign[n - 1] < k);
    }
}

/// The squared differences between `v` and component `d` of those of the first `n`
/// rows that are assigned to `c`.
spec fn column_cost(
    table: Seq<Seq<Fixed>>,
    v: int,
    assign: Seq<usize>,
    c: int,
    d: int,
    n: nat,
) -> int
    decreases n,
{
    if n == 0 {
        0
    } else {
        column_cost(table, v, assign, c, d, (n - 1) as nat) + if assign[n - 1] == c {
            (table[n - 1][d].raw - v) * (table[n - 1][d].raw - v)
        } else {
            0
        }
    }
}

/// The last component of a cluster.
proof fn lemma_last_column(
    table: Seq<Seq<Fixed>>,
    centre: Seq<Fixed>,
    assign: Seq<usize>,
    c: int,
    dim: nat,
    n: nat,
)
    requires
        dim > 0,
    ensures
        cluster_cost(table, centre, assign, c, dim, n) == cluster_cost(
            table,
            centre,
            assign,
            c,
            (dim - 1) as nat,
            n,
        ) + column_cost(table, centre[dim - 1].raw as int, assign, c, dim - 1, n),
    decreases n,
{
    if n > 0 {
        lemma_last_column(table, centre, assign, c, dim, (n - 1) as nat);
    }
}

proof fn lemma_no_columns(
    table: Seq<Seq<Fixed>>,
    centre: Seq<Fixed>,
    assign: Seq<usize>,
    c: int,
    n: nat,
)
    ensures
        cluster_cost(table, centre, assign, c, 0, n) == 0,
    decreases n,
{
    if n > 0 {
        lemma_no_columns(table, centre, assign, c, (n - 1) as nat);
    }
}

/// The squared differences, multiplied out: between two values they differ as the
/// counts and sums say.
proof fn lemma_column_cost(
    table: Seq<Seq<Fixed>>,
    v: int,
    w: int,
    assign: Seq<usize>,
    c: int,
    d: int,
    n: nat,
)
    ensures
        column_cost(table, v, assign, c, d, n) - column_cost(table, w, assign, c, d, n) == counted(
            assign,
            c,
            n,
        ) * (v * v - w * w) - 2 * (v - w) * column_sum(table, assign, c, d, n),
        counted(assign, c, n) >= 0,
    decreases n,
{
    if n == 0 {
        assert(0 * (v * v - w * w) - 2 * (v - w) * 0 == 0) by (nonlinear_arith);
    } else {
        let m = (n - 1) as nat;
        lemma_column_cost(table, v, w, assign, c, d, m);
        if assign[n - 1] == c {
            let x = table[n - 1][d].raw as int;
            let (a, s) = (counted(assign, c, m), column_sum(table, assign, c, d, m));
            let (g, h) = (v * v - w * w, 2 * (v - w));
            assert((x - v) * (x - v) - (x - w) * (x - w) == g - h * x) by (nonlinear_arith)
                requires
                    g == v * v - w * w,
                    h == 2 * (v - w),
            ;
            assert((a + 1) * g == a * g + g) by (nonlinear_arith);
            assert(h * (s + x) == h * s + h * x) by (nonlinear_arith);
        }
    }
}

/// No value is nearer to numbers with sum `s` than their mean, but for the square of
/// the tolerance.
proof fn lemma_mean_is_best(a: int, s: int, v: int, w: int, f: int)
    requires
        a >= 0,
        a == 0 ==> s == 0,
        f >= 0,
        -(a * f) <= a * v - s <= a * f,
    ensures
        a * (v * v - w * w) - 2 * (v - w) * s <= a * (f * f),
{
    if a == 0 {
        assert(a * (v * v - w * w) - 2 * (v - w) * s == 0 && a * (f * f) == 0) by (nonlinear_arith)
            requires
                a == 0,
                s == 0,
        ;
    } else {
        let (p, q) = (a * v - s, a * w - s);
        let left = a * (v * v - w * w) - 2 * (v - w) * s;
        let (aa, avs, aws) = (a * a, a * (v * s), a * (w * s));
        assert(p * p == aa * (v * v) - 2 * avs + s * s) by (nonlinear_arith)
            requires
                p == a * v - s,
                aa == a * a,
                avs == a * (v * s),
        ;
        assert(q * q == aa * (w * w) - 2 * aws + s * s) by (nonlinear_arith)
            requires
                q == a * w - s,
                aa == a * a,
                aws == a * (w * s),
        ;
        assert(left == a * (v * v) - a * (w * w) - 2 * (v * s) + 2 * (w * s)) by (nonlinear_arith)
            requires
                left == a * (v * v - w * w) - 2 * (v - w) * s,
        ;
        assert(a * left == aa * (v * v) - aa * (w * w) - 2 * avs + 2 * aws) by (nonlinear_arith)
            requires
                left == a * (v * v) - a * (w * w) - 2 * (v * s) + 2 * (w * s),
                aa == a * a,
                avs == a * (v * s),
                aws == a * (w * s),
        ;
        let af = a * f;
        assert(p * p <= af * af) by (nonlinear_arith)
            requires
                -af <= p <= af,
        ;
        assert(q * q >= 0) by (nonlinear_arith);
        assert(af * af == a * (a * (f * f))) by (nonlinear_arith)
            requires
                af == a * f,
        ;
        let right = a * (f * f);
        assert(left <= right) by (nonlinear_arith)
            requires
                a > 0,
                a * left <= a * right,
        ;
    }
}

proof fn lemma_empty_sum(table: Seq<Seq<Fixed>>, assign: Seq<usize>, c: int, d: int, n: nat)
    ensures
        counted(assign, c, n) >= 0,
        counted(assign, c, n) == 0 ==> column_sum(table, assign, c, d, n) == 0,
    decreases n,
{
    if n > 0 {
        lemma_empty_sum(table, assign, c, d, (n - 1) as nat);
    }
}

proof fn lemma_cluster_improves(
    table: Seq<Seq<Fixed>>,
    old_centre: Seq<Fixed>,
    fresh: Seq<Fixed>,
    assign: Seq<usize>,
    c: int,
    dim: nat,
    e: nat,
    f: nat,
)
    requires
        e <= dim,
        counted(assign, c, table.len()) > 0 ==> is_mean(table, assign, fresh, c, dim, f),
    ensures
        cluster_cost(table, fresh, assign, c, e, table.len()) <= cluster_cost(
            table,
            old_centre,
            assign,
            c,
            e,
            table.len(),
        ) + e * (counted(assign, c, table.len()) * (f * f)),
    decreases e,
{
    let n = table.len();
    let a = counted(assign, c, n);
    let slack = a * (f * f);
    if e == 0 {
        lemma_no_columns(table, fresh, assign, c, n);
        lemma_no_columns(table, old_centre, assign, c, n);
        assert(e * slack == 0) by (nonlinear_arith)
            requires
                e == 0,
        ;
    } else {
        let d = e - 1;
        lemma_cluster_improves(table, old_centre, fresh, assign, c, dim, d as nat, f);
        lemma_last_column(table, fresh, assign, c, e, n);
        lemma_last_column(table, old_centre, assign, c, e, n);
        let (v, w) = (fresh[d].raw as int, old_centre[d].raw as int);
        lemma_column_cost(table, v, w, assign, c, d, n);
        lemma_empty_sum(table, assign, c, d, n);
        let s = column_sum(table, assign, c, d, n);
        if a == 0 {
            assert(a * v == 0 && a * f == 0) by (nonlinear_arith)
                requires
                    a == 0,
            ;
        } else {
            assert(-(a * f) <= a * fresh[d].raw - s <= a * f);
        }
        lemma_mean_is_best(a, s, v, w, f as int);
        assert(e * slack == d * slack + slack) by (nonlinear_arith)
            requires
                e == d + 1,
        ;
    }
}

proof fn lemma_clusters_improve(
    table: Seq<Seq<Fixed>>,
    old_centres: Seq<Seq<Fixed>>,
    fresh: Seq<Seq<Fixed>>,
    assign: Seq<usize>,
    dim: nat,
    f: nat,
    k: nat,
)
    requires
        k <= fresh.len(),
        are_means(table, assign, fresh, dim, f),
    ensures
        clusters_cost(table, fresh, assign, dim, table.len(), k) <= clusters_cost(
            table,
            old_centres,
            assign,
            dim,
            table.len(),
            k,
        ) + clusters_count(assign, table.len(), k) * (dim * (f * f)),
    decreases k,
{
    let n = table.len();
    if k == 0 {
        assert(clusters_count(assign, n, k) * (dim * (f * f)) == 0) by (nonlinear_arith)
            requires
                clusters_count(assign, n, k) == 0,
        ;
    } else {
        let c = k - 1;
        lemma_clusters_improve(table, old_centres, fresh, assign, dim, f, c as nat);
        assert(counted(assign, c, n) > 0 ==> is_mean(table, assign, fresh[c], c, dim, f));
        lemma_cluster_improves(table, old_centres[c], fresh[c], assign, c, dim, dim, f);
        let (p, q, a) = (
            clusters_count(assign, n, k),
            clusters_count(assign, n, c as nat),
            counted(assign, c, n),
        );
        assert(p * (dim * (f * f)) == q * (dim * (f * f)) + dim * (a * (f * f)))
            by (nonlinear_arith)
            requires
                p == q + a,
        ;
    }
}

proof fn lemma_least_gap(x: Seq<Fixed>, centres: Seq<Seq<Fixed>>, dim: nat, n: nat, c: int)
    requires
        0 <= c < n,
    ensures
        least_gap(x, centres, dim, n) <= gaps(x, centres[c], dim),
    decreases n,
{
    if c < n - 1 {
        lemma_least_gap(x, centres, dim, (n - 1) as nat, c);
    }
}

proof fn lemma_some_gap(x: Seq<Fixed>, centres: Seq<Seq<Fixed>>, dim: nat, n: nat)
    requires
        n > 0,
    ensures
        exists|c: int|
            0 <= c < n && least_gap(x, centres, dim, n) == gaps(x, #[trigger] centres[c], dim),
    decreases n,
{
    if n > 1 {
        lemma_some_gap(x, centres, dim, (n - 1) as nat);
    }
    let here = gaps(x, centres[n - 1], dim);
    if least_gap(x, centres, dim, n) != here {
        let c = choose|c: int|
            0 <= c < n - 1 && least_gap(x, centres, dim, (n - 1) as nat) == gaps(
                x,
                #[trigger] centres[c],
                dim,
            );
        assert(least_gap(x, centres, dim, n) == gaps(x, centres[c], dim));
    }
}

/// The nearest centres cost no more than the assigned ones.
proof fn lemma_cost_below(
    table: Seq<Seq<Fixed>>,
    centres: Seq<Seq<Fixed>>,
    assign: Seq<usize>,
    dim: nat,
    n: nat,
)
    requires
        n <= assign.len(),
        forall|i: int| 0 <= i < assign.len() ==> (#[trigger] assign[i]) < centres.len(),
    ensures
        cost(table, centres, dim, n) <= assigned_cost(table, centres, assign, dim, n),
    decreases n,
{
    if n > 0 {
        lemma_cost_below(table, centres, assign, dim, (n - 1) as nat);
        assert(assign[n - 1] < centres.len());
        lemma_least_gap(table[n - 1], centres, dim, centres.len(), assign[n - 1] as int);
    }
}

/// Where rows are assigned to what computed distances say is nearest, they cost no
/// more than the nearest centres, but for the rounding of the distances.
proof fn lemma_cost_above(
    table: Seq<Seq<Fixed>>,
    centres: Seq<Seq<Fixed>>,
    assign: Seq<usize>,
    dim: nat,
    n: nat,
)
    requires
        table_bounded(table, dim),
        table_bounded(centres, dim),
        centres.len() > 0,
        nearest_to(table, centres, assign),
        n <= table.len(),
    ensures
        assigned_cost(table, centres, assign, dim, n) <= cost(table, centres, dim, n) + n * (0x1_0000
            * dim),
    decreases n,
{
    if n == 0 {
        assert(n * (0x1_0000 * dim) == 0) by (nonlinear_arith)
            requires
                n == 0,
        ;
    } else {
        let m = (n - 1) as nat;
        lemma_cost_above(table, centres, assign, dim, m);
        let x = table[m as int];
        lemma_some_gap(x, centres, dim, centres.len());
        let c = choose|c: int|
            0 <= c < centres.len() && least_gap(x, centres, dim, centres.len()) == gaps(
                x,
                #[trigger] centres[c],
                dim,
            );
        let a = assign[m as int] as int;
        assert(assign[m as int] < centres.len());
        assert(x.len() == dim && centres[c].len() == dim && centres[a].len() == dim);
        assert(bounded(x, 0x8000_0000) && bounded(centres[c], 0x8000_0000) && bounded(
            centres[a],
            0x8000_0000,
        ));
        crate::exact::lemma_sq_l2_upto(x, centres[c], dim);
        crate::exact::lemma_sq_l2_upto(x, centres[a], dim);
        assert(sq_l2_of(x, centres[a]).raw <= sq_l2_of(x, centres[c]).raw);
        let e = 0x1_0000 * dim;
        assert(n * e == m * e + e) by (nonlinear_arith)
            requires
                n == m + 1,
        ;
    }
}

/// An iteration does not make things worse: where rows are assigned to their nearest
/// centres and each centre moves to the mean of its rows, the squared distances of the
/// rows to their nearest centres do not grow in total. Each component of a row may add
/// a unit for the rounding of distances and the square of the tolerance of the means.
pub proof fn lemma_iteration_improves(
    table: Seq<Seq<Fixed>>,
    centres: Seq<Seq<Fixed>>,
    fresh: Seq<Seq<Fixed>>,
    assign: Seq<usize>,
    dim: nat,
    f: nat,
)
    requires
        table_bounded(table, dim),
        table_bounded(centres, dim),
        0 < centres.len() == fresh.len(),
        nearest_to(table, centres, assign),
        are_means(table, assign, fresh, dim, f),
    ensures
        cost(table, fresh, dim, table.len()) <= cost(table, centres, dim, table.len())
            + table.len() * (dim * (f * f)) + table.len() * (0x1_0000 * dim),
{
    let n = table.len();
    let k = centres.len();
    lemma_cost_below(table, fresh, assign, dim, n);
    lemma_by_clusters(table, fresh, assign, dim, n, k);
    lemma_clusters_improve(table, centres, fresh, assign, dim, f, k);
    lemma_by_clusters(table, centres, assign, dim, n, k);
    lemma_cost_above(table, centres, assign, dim, n);
}

/// Rows are assigned to the centres that are nearest to them.
pub proof fn lemma_assigned_nearest(
    table: Seq<Seq<Fixed>>,
    centres: Seq<Seq<Fixed>>,
    dim: nat,
)
    requires
        table_bounded(table, dim),
        table_bounded(centres, dim),
        0 < centres.len() <= usize::MAX,
    ensures
        nearest_to(table, centres, assigned(table, centres)),
{
    let assign = assigned(table, centres);
    let k = centres.len();
    assert forall|i: int| 0 <= i < assign.len() implies (#[trigger] assign[i]) < k by {
        lemma_nearest_centre(table[i], centres, k);
    }
    assert forall|i: int, c: int| 0 <= i < table.len() && 0 <= c < k implies sq_l2_of(
        table[i],
        centres[assign[i] as int],
    ).raw <= (#[trigger] sq_l2_of(table[i], centres[c])).raw by {
        lemma_nearest_centre(table[i], centres, k);
        let a = nearest_centre(table[i], centres) as int;
        assert(assign[i] as int == a);
        assert(bounded(table[i], 0x8000_0000) && bounded(centres[a], 0x8000_0000) && bounded(
            centres[c],
            0x8000_0000,
        ));
        lemma_sq_l2_exact(table[i], centres[a]);
        lemma_sq_l2_exact(table[i], centres[c]);
        let found = nearest_upto(table[i], centres, k).1;
        assert(!less(sq_l2_of(table[i], centres[c]), found));
        assert(!less(sq_l2_of(table[i], centres[a]), found));
    }
}

/// Members are counted one by one.
pub proof fn lemma_counted(assign: Seq<usize>, c: usize, n: nat)
    ensures
        members(assign, c, n) == counted(assign, c as int, n),
        counted(assign, c as int, n) <= n,
    decreases n,
{
    if n > 0 {
        lemma_counted(assign, c, (n - 1) as nat);
    }
}

/// The sum over the rows of a centre, in units.
proof fn lemma_member_sum_exact(
    table: Seq<Seq<Fixed>>,
    assign: Seq<usize>,
    c: usize,
    dim: nat,
    n: nat,
)
    requires
        table_bounded(table, dim),
        n <= table.len(),
    ensures
        member_sum(table, assign, c, dim, n).len() == dim,
        forall|d: int|
            0 <= d < dim ==> (#[trigger] member_sum(table, assign, c, dim, n)[d]).raw == column_sum(
                table,
                assign,
                c as int,
                d,
                n,
            ),
    decreases n,
{
    if n > 0 {
        let m = (n - 1) as nat;
        lemma_member_sum_exact(table, assign, c, dim, m);
        let rest = member_sum(table, assign, c, dim, m);
        let x = table[m as int];
        assert(x.len() == dim);
        assert(bounded(x, 0x8000_0000));
        assert forall|d: int| 0 <= d < dim implies (#[trigger] member_sum(
            table,
            assign,
            c,
            dim,
            n,
        )[d]).raw == column_sum(table, assign, c as int, d, n) by {
            lemma_column_sum_bound(table, assign, c as int, d, dim, m);
            assert(rest[d].raw == column_sum(table, assign, c as int, d, m));
            assert(-0x8000_0000 <= x[d].raw <= 0x8000_0000);
            lemma_counted(assign, c, m);
        }
    }
}

/// A sum is no greater than its number of terms allows.
pub proof fn lemma_column_sum_bound(
    table: Seq<Seq<Fixed>>,
    assign: Seq<usize>,
    c: int,
    d: int,
    dim: nat,
    n: nat,
)
    requires
        table_bounded(table, dim),
        n <= table.len(),
        0 <= d < dim,
    ensures
        -0x8000_0000 * counted(assign, c, n) <= column_sum(table, assign, c, d, n),
        column_sum(table, assign, c, d, n) <= 0x8000_0000 * counted(assign, c, n),
        0 <= counted(assign, c, n) <= n,
    decreases n,
{
    if n > 0 {
        lemma_column_sum_bound(table, assign, c, d, dim, (n - 1) as nat);
        let x = table[n - 1];
        assert(x.len() == dim);
        assert(bounded(x, 0x8000_0000));
        assert(-0x8000_0000 <= x[d].raw <= 0x8000_0000);
    }
}

/// Sums of rows are never farther than 2^46 from zero.
pub proof fn lemma_any_sum(table: Seq<Seq<Fixed>>, assign: Seq<usize>, k: nat, dim: nat)
    requires
        table_bounded(table, dim),
    ensures
        sums_below(table, assign, k, dim, 0x4000_0000_0000),
{
    assert forall|c: int, d: int| 0 <= c < k && 0 <= d < dim implies close(
        #[trigger] column_sum(table, assign, c, d, table.len()),
        0,
        0x1_0000 * 0x4000_0000_0000,
    ) by {
        lemma_column_sum_bound(table, assign, c, d, dim, table.len());
    }
}

/// A sum times the inverse of a count.
proof fn lemma_mean_component(total: Fixed, count: nat, f: nat)
    requires
        0 < count <= 0x8000_0000,
        -0x8000_0000 * count <= total.raw <= 0x8000_0000 * count,
        close(total.raw as int, 0, 0x1_0000 * f),
    ensures
        ({
            let mean = total.times_of(whole::<Fixed>(1).over_of(whole::<Fixed>(count as u64)));
            &&& -(count * (f + 1)) <= count * mean.raw - total.raw <= count * (f + 1)
            &&& -0x8000_0000 <= mean.raw <= 0x8000_0000
        }),
{
    let one = whole::<Fixed>(1);
    let w = whole::<Fixed>(count as u64);
    assert(one.raw == 0x1_0000 && w.raw == count * 0x1_0000);
    lemma_over(one, w);
    let inv = one.over_of(w);
    let i = inv.raw as int;
    assert(i * w.raw == 0x1_0000 * (i * count)) by (nonlinear_arith)
        requires
            w.raw == count * 0x1_0000,
    ;
    let ic = i * count;
    assert(0x1_0000 - count < ic <= 0x1_0000);
    assert(i <= 0x1_0000) by (nonlinear_arith)
        requires
            i >= 0,
            i * count <= 0x1_0000,
            count >= 1,
    ;
    let t = total.raw as int;
    let size = size_of(total);
    let ti = t * i;
    assert(-0x8000_0000_0000 * count <= ti <= 0x8000_0000_0000 * count) by (nonlinear_arith)
        requires
            ti == t * i,
            0 <= i <= 0x1_0000,
            -0x8000_0000 * count <= t <= 0x8000_0000 * count,
    ;
    lemma_times(total, inv);
    let mean = total.times_of(inv).raw as int;
    let cm = count * mean;
    let cti = count * ti;
    assert(cti == t * ic) by (nonlinear_arith)
        requires
            cti == count * (t * i),
            ic == i * count,
    ;
    assert(-0x1_0000 * count <= cti - 0x1_0000 * cm <= 0x1_0000 * count) by (nonlinear_arith)
        requires
            cti == count * ti,
            cm == count * mean,
            -0x1_0000 <= ti - 0x1_0000 * mean <= 0x1_0000,
    ;
    let lost = 0x1_0000 - ic;
    assert(t * ic == 0x1_0000 * t - t * lost) by (nonlinear_arith)
        requires
            lost == 0x1_0000 - ic,
    ;
    let cf = count * f;
    assert(-0x1_0000 * cf <= t * lost <= 0x1_0000 * cf) by (nonlinear_arith)
        requires
            0 <= lost <= count,
            -0x1_0000 * f <= t <= 0x1_0000 * f,
            cf == count * f,
    ;
    assert(count * (f + 1) == cf + count) by (nonlinear_arith)
        requires
            cf == count * f,
    ;
    assert(-0x8000_0000 * 0x1_0000 <= ti <= 0x8000_0000 * 0x1_0000) by (nonlinear_arith)
        requires
            ti == t * i,
            i >= 0,
            -0x8000_0000 * count <= t <= 0x8000_0000 * count,
            i * count <= 0x1_0000,
    ;
}

/// The centre that an iteration computes is the mean of the rows that are assigned to
/// it, with a unit of rounding for each row and another one for each 2^16 units of
/// their sum.
pub proof fn lemma_centre_is_mean(
    table: Seq<Seq<Fixed>>,
    assign: Seq<usize>,
    c: usize,
    dim: nat,
    k: nat,
    f: nat,
)
    requires
        table_bounded(table, dim),
        dim <= 0x4000,
        c < k,
        counted(assign, c as int, table.len()) > 0,
        sums_below(table, assign, k, dim, f),
    ensures
        is_mean(table, assign, centre_of(table, assign, c, dim), c as int, dim, f + 1),
        centre_of(table, assign, c, dim).len() == dim,
        bounded(centre_of(table, assign, c, dim), 0x8000_0000),
{
    let n = table.len();
    let centre = centre_of(table, assign, c, dim);
    let total = member_sum(table, assign, c, dim, n);
    lemma_counted(assign, c, n);
    lemma_member_sum_exact(table, assign, c, dim, n);
    let count = counted(assign, c as int, n);
    assert forall|d: int| 0 <= d < dim implies -(count * (f + 1)) <= count * (
    #[trigger] centre[d]).raw - column_sum(table, assign, c as int, d, n) <= count * (f + 1)
        && -0x8000_0000 <= centre[d].raw <= 0x8000_0000 by {
        lemma_column_sum_bound(table, assign, c as int, d, dim, n);
        assert(close(column_sum(table, assign, c as int, d, n), 0, 0x1_0000 * f));
        assert(total[d].raw == column_sum(table, assign, c as int, d, n));
        lemma_mean_component(total[d], count as nat, f);
    }
}

} // verus!
