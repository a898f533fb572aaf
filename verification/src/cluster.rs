//! The steps of k-means clustering.

use vstd::prelude::*;

use crate::flat::{rectangular, Listed, Rows};
use crate::linalg::{sq_l2, sq_l2_of, sum, zero_vec, zeros};
use crate::scalar::{is_less, less, whole, Scalar};
use crate::table::rows;

verus! {

/// The centre nearest to `x` among the first `n`, and its distance. Where none
/// is nearer than infinity, it is the first one.
pub open spec fn nearest_upto<R: Scalar>(x: Seq<R>, centres: Seq<Seq<R>>, n: nat) -> (nat, R)
    decreases n,
{
    if n == 0 {
        (0, R::infinity_of())
    } else {
        let best = nearest_upto(x, centres, (n - 1) as nat);
        let d = sq_l2_of(x, centres[n - 1]);
        if less(d, best.1) {
            ((n - 1) as nat, d)
        } else {
            best
        }
    }
}

/// The centre nearest to `x`; of several the first one.
pub open spec fn nearest_centre<R: Scalar>(x: Seq<R>, centres: Seq<Seq<R>>) -> nat {
    nearest_upto(x, centres, centres.len()).0
}

/// No centre is nearer than the nearest one, and those before it are farther
/// away.
pub proof fn lemma_nearest_centre<R: Scalar>(x: Seq<R>, centres: Seq<Seq<R>>, n: nat)
    requires
        n <= centres.len(),
    ensures
        ({
            let best = nearest_upto(x, centres, n);
            &&& n > 0 ==> best.0 < n
            &&& best.0 == 0 || best.0 < n
            &&& forall|c: int|
                0 <= c < n ==> !less(#[trigger] sq_l2_of(x, centres[c]), best.1)
            &&& best.1 == R::infinity_of() || best.1 == sq_l2_of(x, centres[best.0 as int])
            &&& less(best.1, R::infinity_of()) ==> best.0 < n && best.1 == sq_l2_of(
                x,
                centres[best.0 as int],
            ) && forall|c: int|
                0 <= c < best.0 ==> less(best.1, #[trigger] sq_l2_of(x, centres[c]))
            &&& !less(R::infinity_of(), best.1)
        }),
    decreases n,
{
    if n > 0 {
        lemma_nearest_centre(x, centres, (n - 1) as nat);
    }
}

/// The centre that each row is assigned to.
pub open spec fn assigned<R: Scalar>(table: Seq<Seq<R>>, centres: Seq<Seq<R>>) -> Seq<usize> {
    Seq::new(table.len(), |i: int| nearest_centre(table[i], centres) as usize)
}

/// The number of the first `n` rows that are assigned to `c`.
pub open spec fn members(assign: Seq<usize>, c: usize, n: nat) -> nat
    decreases n,
{
    if n == 0 {
        0
    } else {
        members(assign, c, (n - 1) as nat) + if assign[n - 1] == c {
            1nat
        } else {
            0
        }
    }
}

/// The sum of those of the first `n` rows that are assigned to `c`.
pub open spec fn member_sum<R: Scalar>(
    table: Seq<Seq<R>>,
    assign: Seq<usize>,
    c: usize,
    dim: nat,
    n: nat,
) -> Seq<R>
    decreases n,
{
    if n == 0 {
        zeros(dim)
    } else {
        let rest = member_sum(table, assign, c, dim, (n - 1) as nat);
        if assign[n - 1] == c {
            sum(rest, table[n - 1])
        } else {
            rest
        }
    }
}

/// Each component times `1 / count`.
pub open spec fn scaled_down<R: Scalar>(total: Seq<R>, count: nat) -> Seq<R> {
    Seq::new(
        total.len(),
        |i: int| total[i].times_of(whole::<R>(1).over_of(whole::<R>(count as u64))),
    )
}

/// The mean of the rows that are assigned to `c`.
pub open spec fn centre_of<R: Scalar>(
    table: Seq<Seq<R>>,
    assign: Seq<usize>,
    c: usize,
    dim: nat,
) -> Seq<R> {
    scaled_down(
        member_sum(table, assign, c, dim, table.len()),
        members(assign, c, table.len()),
    )
}

/// No more rows are assigned to a centre than there are.
pub proof fn lemma_members(assign: Seq<usize>, c: usize, n: nat)
    ensures
        members(assign, c, n) <= n,
    decreases n,
{
    if n > 0 {
        lemma_members(assign, c, (n - 1) as nat);
    }
}

/// Sums of rows have as many components as the rows.
pub proof fn lemma_member_sum<R: Scalar>(
    table: Seq<Seq<R>>,
    assign: Seq<usize>,
    c: usize,
    dim: nat,
    n: nat,
)
    requires
        rectangular(table, dim),
        n <= table.len(),
    ensures
        member_sum(table, assign, c, dim, n).len() == dim,
    decreases n,
{
    if n > 0 {
        lemma_member_sum(table, assign, c, dim, (n - 1) as nat);
    }
}

/// Finds the centre nearest to `x`.
pub fn find_nearest_row<R: Scalar, A: Rows<R>>(x: &[R], centres: &A) -> (c: usize)
    ensures
        c == nearest_centre(x@, centres.all()),
        centres.all().len() > 0 ==> c < centres.all().len(),
{
    let n: usize = centres.count();
    let ghost all = centres.all();
    let mut best: usize = 0;
    let mut best_d = R::infinity();
    let mut c: usize = 0;
    while c < n
        invariant
            c <= n,
            n == all.len(),
            all == centres.all(),
            (best as nat, best_d) == nearest_upto(x@, all, c as nat),
        decreases n - c,
    {
        let d = sq_l2(x, centres.row(c));
        if is_less(d, best_d) {
            best_d = d;
            best = c;
        }
        c += 1;
    }
    proof {
        lemma_nearest_centre(x@, all, n as nat);
    }
    best
}

/// Finds the centre nearest to `x`.
pub fn find_nearest<R: Scalar>(x: &[R], centres: &[Vec<R>]) -> (c: usize)
    ensures
        c == nearest_centre(x@, rows(centres@)),
        centres@.len() > 0 ==> c < centres@.len(),
{
    find_nearest_row(x, &Listed { list: centres })
}

/// Assigns each row to its nearest centre.
pub fn assign_rows<R: Scalar, A: Rows<R>>(table: &A, centres: &[Vec<R>]) -> (r: Vec<usize>)
    requires
        centres@.len() > 0,
    ensures
        r@ == assigned(table.all(), rows(centres@)),
        forall|i: int| 0 <= i < r@.len() ==> (#[trigger] r@[i]) < centres@.len(),
{
    let n: usize = table.count();
    let mut r: Vec<usize> = Vec::new();
    let mut i: usize = 0;
    while i < n
        invariant
            i <= n,
            n == table.all().len(),
            centres@.len() > 0,
            r@ =~= assigned(table.all(), rows(centres@)).take(i as int),
            forall|i: int| 0 <= i < r@.len() ==> (#[trigger] r@[i]) < centres@.len(),
        decreases n - i,
    {
        r.push(find_nearest(table.row(i), centres));
        i += 1;
    }
    assert(assigned(table.all(), rows(centres@)).take(n as int) =~= assigned(
        table.all(),
        rows(centres@),
    ));
    r
}

/// Adds a row to a sum.
fn add_row<R: Scalar>(total: &mut Vec<R>, row: &[R])
    requires
        old(total)@.len() == row@.len(),
    ensures
        final(total)@ == sum(old(total)@, row@),
{
    let n: usize = row.len();
    let mut i: usize = 0;
    while i < n
        invariant
            i <= n,
            n == row@.len(),
            total@.len() == n,
            forall|j: int| 0 <= j < i ==> #[trigger] total@[j] == sum(old(total)@, row@)[j],
            forall|j: int| i <= j < n ==> #[trigger] total@[j] == old(total)@[j],
            old(total)@.len() == n,
        decreases n - i,
    {
        let x = total[i].plus(row[i]);
        total.set(i, x);
        i += 1;
    }
    assert(total@ =~= sum(old(total)@, row@));
}

/// Sums up the rows of each centre and counts them.
pub fn sum_members<R: Scalar, A: Rows<R>>(
    table: &A,
    assign: &[usize],
    k: usize,
    dim: usize,
) -> (r: (Vec<Vec<R>>, Vec<usize>))
    requires
        rectangular(table.all(), dim as nat),
        assign@.len() == table.all().len(),
        forall|i: int| 0 <= i < assign@.len() ==> (#[trigger] assign@[i]) < k,
    ensures
        r.0@.len() == k,
        r.1@.len() == k,
        forall|c: int|
            0 <= c < k ==> (#[trigger] r.0@[c])@ == member_sum(
                table.all(),
                assign@,
                c as usize,
                dim as nat,
                table.all().len(),
            ),
        forall|c: int|
            0 <= c < k ==> #[trigger] r.1@[c] == members(assign@, c as usize, table.all().len()),
{
    let n: usize = table.count();
    let ghost all = table.all();
    let mut sums: Vec<Vec<R>> = Vec::new();
    let mut counts: Vec<usize> = Vec::new();
    let mut j: usize = 0;
    while j < k
        invariant
            j <= k,
            sums@.len() == j,
            counts@.len() == j,
            forall|c: int| 0 <= c < j ==> (#[trigger] sums@[c])@ == zeros::<R>(dim as nat),
            forall|c: int| 0 <= c < j ==> #[trigger] counts@[c] == 0,
        decreases k - j,
    {
        sums.push(zero_vec(dim));
        counts.push(0);
        j += 1;
    }
    let mut i: usize = 0;
    while i < n
        invariant
            i <= n,
            n == all.len(),
            all == table.all(),
            rectangular(all, dim as nat),
            assign@.len() == n,
            forall|i: int| 0 <= i < assign@.len() ==> (#[trigger] assign@[i]) < k,
            sums@.len() == k,
            counts@.len() == k,
            forall|c: int|
                0 <= c < k ==> (#[trigger] sums@[c])@ == member_sum(
                    all,
                    assign@,
                    c as usize,
                    dim as nat,
                    i as nat,
                ),
            forall|c: int|
                0 <= c < k ==> #[trigger] counts@[c] == members(assign@, c as usize, i as nat),
        decreases n - i,
    {
        let a: usize = assign[i];
        assert(assign@[i as int] < k);
        proof {
            lemma_members(assign@, a, i as nat);
            lemma_member_sum(all, assign@, a, dim as nat, i as nat);
        }
        let seen: usize = counts[a];
        assert(seen <= i);
        counts.set(a, seen + 1);
        let row = table.row(i);
        assert(row@.len() == dim) by {
            assert(all[i as int].len() == dim);
        }
        add_row(&mut sums[a], row);
        i += 1;
    }
    (sums, counts)
}

/// Multiplies each component by `1 / count`.
pub fn scale_down<R: Scalar>(total: &[R], count: usize) -> (r: Vec<R>)
    ensures
        r@ == scaled_down(total@, count as nat),
{
    let inv = R::ratio(1, 1).over(R::ratio(count as u64, 1));
    let n: usize = total.len();
    let mut r: Vec<R> = Vec::new();
    let mut i: usize = 0;
    while i < n
        invariant
            i <= n,
            n == total@.len(),
            inv == whole::<R>(1).over_of(whole::<R>(count as u64)),
            r@ =~= scaled_down(total@, count as nat).take(i as int),
        decreases n - i,
    {
        r.push(total[i].times(inv));
        i += 1;
    }
    assert(scaled_down(total@, count as nat).take(n as int) =~= scaled_down(
        total@,
        count as nat,
    ));
    r
}

} // verus!
