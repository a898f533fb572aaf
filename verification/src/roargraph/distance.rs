//! Squared Euclidean distance in four running sums.

use vstd::prelude::*;

use crate::linalg::add_square;
use crate::scalar::Scalar;

verus! {

/// The sum of the squared differences of every fourth component from `first` on,
/// in the first `chunks` groups of four.
pub open spec fn lane<R: Scalar>(a: Seq<R>, b: Seq<R>, first: int, chunks: nat) -> R
    decreases chunks,
{
    if chunks == 0 {
        R::zero_of()
    } else {
        let i = (chunks - 1) * 4 + first;
        add_square(lane(a, b, first, (chunks - 1) as nat), a[i], b[i])
    }
}

/// `s` and the squared differences of the components from `from` to `to`.
pub open spec fn tail<R: Scalar>(s: R, a: Seq<R>, b: Seq<R>, from: int, to: int) -> R
    decreases to - from,
{
    if to <= from {
        s
    } else {
        add_square(tail(s, a, b, from, to - 1), a[to - 1], b[to - 1])
    }
}

/// The squared Euclidean distance: the sums of the four lanes, and then the
/// components behind the last full group.
pub open spec fn l2_sq_of<R: Scalar>(a: Seq<R>, b: Seq<R>) -> R {
    let n = a.len();
    let chunks = n / 4;
    let s = lane(a, b, 0, chunks).plus_of(lane(a, b, 1, chunks)).plus_of(
        lane(a, b, 2, chunks),
    ).plus_of(lane(a, b, 3, chunks));
    tail(s, a, b, (chunks * 4) as int, n as int)
}

/// Computes the squared Euclidean distance.
pub fn l2_sq<R: Scalar>(a: &[R], b: &[R]) -> (r: R)
    requires
        a@.len() == b@.len(),
    ensures
        r == l2_sq_of(a@, b@),
{
    let n: usize = a.len();
    let mut s0 = R::zero();
    let mut s1 = R::zero();
    let mut s2 = R::zero();
    let mut s3 = R::zero();
    let chunks: usize = n / 4;
    let mut i: usize = 0;
    while i < chunks
        invariant
            i <= chunks,
            chunks == n / 4,
            n == a@.len(),
            n == b@.len(),
            s0 == lane(a@, b@, 0, i as nat),
            s1 == lane(a@, b@, 1, i as nat),
            s2 == lane(a@, b@, 2, i as nat),
            s3 == lane(a@, b@, 3, i as nat),
        decreases chunks - i,
    {
        let j: usize = i * 4;
        let d0 = a[j].minus(b[j]);
        let d1 = a[j + 1].minus(b[j + 1]);
        let d2 = a[j + 2].minus(b[j + 2]);
        let d3 = a[j + 3].minus(b[j + 3]);
        s0 = s0.plus(d0.times(d0));
        s1 = s1.plus(d1.times(d1));
        s2 = s2.plus(d2.times(d2));
        s3 = s3.plus(d3.times(d3));
        i += 1;
    }
    let ghost base = s0.plus_of(s1).plus_of(s2).plus_of(s3);
    let mut s = s0.plus(s1).plus(s2).plus(s3);
    let start: usize = chunks * 4;
    let mut k: usize = start;
    while k < n
        invariant
            start <= k <= n,
            n == a@.len(),
            n == b@.len(),
            s == tail(base, a@, b@, start as int, k as int),
        decreases n - k,
    {
        let d = a[k].minus(b[k]);
        s = s.plus(d.times(d));
        k += 1;
    }
    s
}

} // verus!
