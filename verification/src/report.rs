//! Summaries of measurements.

use vstd::prelude::*;

use crate::scalar::{whole, Scalar};
use crate::sorting::lemma_insert_multiset;

verus! {

/// How many values at the start of an ascending sequence are not greater than
/// `x`.
pub open spec fn rank_of(s: Seq<u128>, x: u128) -> nat
    decreases s.len(),
{
    if s.len() == 0 {
        0
    } else if s.last() <= x {
        s.len()
    } else {
        rank_of(s.drop_last(), x)
    }
}

/// The values in ascending order.
pub open spec fn in_ascending_order(s: Seq<u128>) -> Seq<u128>
    decreases s.len(),
{
    if s.len() == 0 {
        s
    } else {
        let t = in_ascending_order(s.drop_last());
        t.insert(rank_of(t, s.last()) as int, s.last())
    }
}

/// The values do not decrease.
pub open spec fn not_decreasing(s: Seq<u128>) -> bool {
    forall|i: int, j: int| 0 <= i <= j < s.len() ==> s[i] <= s[j]
}

proof fn lemma_rank_of(s: Seq<u128>, x: u128)
    ensures
        rank_of(s, x) <= s.len(),
        forall|i: int| rank_of(s, x) <= i < s.len() ==> (#[trigger] s[i]) > x,
        rank_of(s, x) > 0 ==> s[rank_of(s, x) - 1] <= x,
    decreases s.len(),
{
    if s.len() > 0 && s.last() > x {
        let t = s.drop_last();
        lemma_rank_of(t, x);
        assert forall|i: int| rank_of(s, x) <= i < s.len() implies (#[trigger] s[i]) > x by {
            if i < t.len() {
                assert(t[i] == s[i]);
            }
        }
        if rank_of(s, x) > 0 {
            assert(t[rank_of(s, x) - 1] == s[rank_of(s, x) - 1]);
        }
    }
}

/// Sorting keeps the values, and puts them into ascending order.
pub proof fn lemma_in_ascending_order(s: Seq<u128>)
    ensures
        in_ascending_order(s).len() == s.len(),
        in_ascending_order(s).to_multiset() == s.to_multiset(),
        not_decreasing(in_ascending_order(s)),
    decreases s.len(),
{
    if s.len() > 0 {
        let rest = s.drop_last();
        let x = s.last();
        lemma_in_ascending_order(rest);
        let t = in_ascending_order(rest);
        lemma_rank_of(t, x);
        let p = rank_of(t, x) as int;
        t.insert_ensures(p, x);
        lemma_insert_multiset(t, p, x);
        rest.to_multiset_ensures();
        assert(s =~= rest.push(x));
        let u = t.insert(p, x);
        assert forall|i: int, j: int| 0 <= i <= j < u.len() implies u[i] <= u[j] by {
            let a = if i < p {
                t[i]
            } else if i == p {
                x
            } else {
                t[i - 1]
            };
            let b = if j < p {
                t[j]
            } else if j == p {
                x
            } else {
                t[j - 1]
            };
            assert(u[i] == a && u[j] == b);
            if i < p && j == p {
                assert(t[i] <= t[p - 1]);
            }
        }
    }
}

fn sort_values(xs: &[u128]) -> (r: Vec<u128>)
    ensures
        r@ == in_ascending_order(xs@),
        r@.len() == xs@.len(),
{
    let n: usize = xs.len();
    let mut r: Vec<u128> = Vec::new();
    let mut i: usize = 0;
    assert(xs@.take(0) =~= Seq::empty());
    while i < n
        invariant
            i <= n,
            n == xs@.len(),
            r@ == in_ascending_order(xs@.take(i as int)),
            r@.len() == i,
        decreases n - i,
    {
        let x: u128 = xs[i];
        let ghost t = r@;
        let mut p: usize = r.len();
        assert(t.take(p as int) =~= t);
        while p > 0 && r[p - 1] > x
            invariant
                p <= r@.len(),
                r@ == t,
                rank_of(t, x) == rank_of(t.take(p as int), x),
            decreases p,
        {
            assert(t.take(p as int).drop_last() =~= t.take(p - 1));
            p -= 1;
        }
        proof {
            assert(rank_of(t.take(p as int), x) == p);
            assert(xs@.take(i + 1).drop_last() =~= xs@.take(i as int));
            assert(xs@.take(i + 1).last() == x);
        }
        r.insert(p, x);
        i += 1;
    }
    assert(xs@.take(n as int) =~= xs@);
    r
}

/// The value in the middle; the upper one of two.
pub open spec fn median_of(xs: Seq<u128>) -> u128 {
    in_ascending_order(xs)[xs.len() as int / 2]
}

/// The value in the middle; the upper one of two.
pub fn median(xs: Vec<u128>) -> (r: u128)
    requires
        xs@.len() > 0,
    ensures
        r == median_of(xs@),
{
    let sorted = sort_values(xs.as_slice());
    sorted[sorted.len() / 2]
}

/// The position of a percentile among `n` values: the nearest one, and the upper
/// one of two; the last one where the percentile is above 100.
pub open spec fn percentile_rank(n: nat, pct: nat) -> nat
    recommends
        n > 0,
{
    let at = (pct * (n - 1) + 50) as nat / 100;
    if at < n {
        at
    } else {
        (n - 1) as nat
    }
}

/// The position of a percentile among `n` values.
pub fn rank_at(n: usize, pct: u64) -> (r: usize)
    requires
        n > 0,
    ensures
        r == percentile_rank(n as nat, pct as nat),
        r < n,
{
    assert(0 <= pct * (n - 1) <= 0xFFFF_FFFF_FFFF_FFFF * 0xFFFF_FFFF_FFFF_FFFF) by (nonlinear_arith)
        requires
            pct <= 0xFFFF_FFFF_FFFF_FFFF,
            0 < n <= 0xFFFF_FFFF_FFFF_FFFF,
    ;
    let wide: u128 = pct as u128 * (n - 1) as u128;
    let at: u128 = (wide + 50) / 100;
    if at < n as u128 {
        at as usize
    } else {
        n - 1
    }
}

/// The value at a percentile; zero where there are no values.
pub open spec fn percentile_of(v: Seq<u128>, pct: nat) -> u128 {
    if v.len() == 0 {
        0
    } else {
        in_ascending_order(v)[percentile_rank(v.len(), pct) as int]
    }
}

/// The value at a percentile; zero where there are no values.
pub fn percentile(v: Vec<u128>, pct: u64) -> (r: u128)
    ensures
        r == percentile_of(v@, pct as nat),
{
    if v.len() == 0 {
        return 0;
    }
    let sorted = sort_values(v.as_slice());
    let at: usize = rank_at(sorted.len(), pct);
    sorted[at]
}

/// The ends of the percentiles are the smallest and the greatest value, and the
/// median is the one in the middle.
pub proof fn lemma_percentile_ends(n: nat)
    requires
        n > 0,
    ensures
        percentile_rank(n, 0) == 0,
        percentile_rank(n, 50) == n / 2,
        percentile_rank(n, 100) == n - 1,
{
    assert(0 * (n - 1) == 0);
    assert(50 * (n - 1) + 50 == 50 * n);
    assert(100 * (n - 1) + 50 == 100 * n - 50);
}

/// The sum of the first `n` values.
pub open spec fn sum_upto<R: Scalar>(xs: Seq<R>, n: nat) -> R
    decreases n,
{
    if n == 0 {
        R::zero_of()
    } else {
        sum_upto(xs, (n - 1) as nat).plus_of(xs[n - 1])
    }
}

/// The mean of values.
pub open spec fn mean_of<R: Scalar>(xs: Seq<R>) -> R {
    sum_upto(xs, xs.len()).over_of(whole::<R>(xs.len() as u64))
}

/// The mean of values.
pub fn mean<R: Scalar>(xs: &[R]) -> (r: R)
    requires
        xs@.len() > 0,
    ensures
        r == mean_of(xs@),
{
    let n: usize = xs.len();
    let mut sum: R = R::zero();
    let mut i: usize = 0;
    while i < n
        invariant
            i <= n,
            n == xs@.len(),
            sum == sum_upto(xs@, i as nat),
        decreases n - i,
    {
        sum = sum.plus(xs[i]);
        i += 1;
    }
    sum.over(R::ratio(n as u64, 1))
}

} // verus!
