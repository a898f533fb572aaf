//! Sums over vectors, taken component by component from the first to the last.

use vstd::prelude::*;

use crate::scalar::{greater, greater_of, Scalar};

verus! {

/// The shorter length of two vectors.
pub open spec fn common<R>(a: Seq<R>, b: Seq<R>) -> nat {
    if a.len() <= b.len() {
        a.len()
    } else {
        b.len()
    }
}

/// `s + d * d`, with `d` the difference of `x` and `y`.
pub open spec fn add_square<R: Scalar>(s: R, x: R, y: R) -> R {
    s.plus_of(x.minus_of(y).times_of(x.minus_of(y)))
}

/// The sum of the squared differences of the first `n` components.
pub open spec fn sq_l2_upto<R: Scalar>(a: Seq<R>, b: Seq<R>, n: nat) -> R
    decreases n,
{
    if n == 0 {
        R::zero_of()
    } else {
        add_square(sq_l2_upto(a, b, (n - 1) as nat), a[n - 1], b[n - 1])
    }
}

/// The squared Euclidean distance.
pub open spec fn sq_l2_of<R: Scalar>(a: Seq<R>, b: Seq<R>) -> R {
    sq_l2_upto(a, b, common(a, b))
}

/// The sum of the products of the first `n` components.
pub open spec fn dot_upto<R: Scalar>(a: Seq<R>, b: Seq<R>, n: nat) -> R
    decreases n,
{
    if n == 0 {
        R::zero_of()
    } else {
        dot_upto(a, b, (n - 1) as nat).plus_of(a[n - 1].times_of(b[n - 1]))
    }
}

/// The inner product.
pub open spec fn dot_of<R: Scalar>(a: Seq<R>, b: Seq<R>) -> R {
    dot_upto(a, b, common(a, b))
}

/// The differences of the components.
pub open spec fn difference<R: Scalar>(a: Seq<R>, b: Seq<R>) -> Seq<R> {
    Seq::new(common(a, b), |i: int| a[i].minus_of(b[i]))
}

/// The sums of the components.
pub open spec fn sum<R: Scalar>(a: Seq<R>, b: Seq<R>) -> Seq<R> {
    Seq::new(common(a, b), |i: int| a[i].plus_of(b[i]))
}

/// As many zeros as `n`.
pub open spec fn zeros<R: Scalar>(n: nat) -> Seq<R> {
    Seq::new(n, |i: int| R::zero_of())
}

/// The least denominator of a cosine.
pub open spec fn tiny<R: Scalar>() -> R {
    R::ratio_of(1, 1_000_000_000_000)
}

/// The cosine of the angle between two vectors. It is zero for vectors that are
/// empty or of different lengths.
pub open spec fn cosine_of<R: Scalar>(a: Seq<R>, b: Seq<R>) -> R {
    if a.len() != b.len() || a.len() == 0 {
        R::zero_of()
    } else {
        dot_of(a, b).over_of(
            greater_of(dot_of(a, a).sqrt_of().times_of(dot_of(b, b).sqrt_of()), tiny()),
        )
    }
}

/// Computes the squared Euclidean distance. Components beyond the shorter
/// length do not count.
pub fn sq_l2<R: Scalar>(a: &[R], b: &[R]) -> (r: R)
    ensures
        r == sq_l2_of(a@, b@),
{
    let n: usize = if a.len() <= b.len() {
        a.len()
    } else {
        b.len()
    };
    let mut s = R::zero();
    let mut i: usize = 0;
    while i < n
        invariant
            i <= n,
            n == common(a@, b@),
            s == sq_l2_upto(a@, b@, i as nat),
        decreases n - i,
    {
        let d = a[i].minus(b[i]);
        s = s.plus(d.times(d));
        i += 1;
    }
    s
}

/// Computes the inner product. Components beyond the shorter length do not
/// count.
pub fn dot<R: Scalar>(a: &[R], b: &[R]) -> (r: R)
    ensures
        r == dot_of(a@, b@),
{
    let n: usize = if a.len() <= b.len() {
        a.len()
    } else {
        b.len()
    };
    let mut s = R::zero();
    let mut i: usize = 0;
    while i < n
        invariant
            i <= n,
            n == common(a@, b@),
            s == dot_upto(a@, b@, i as nat),
        decreases n - i,
    {
        s = s.plus(a[i].times(b[i]));
        i += 1;
    }
    s
}

/// Computes the cosine of the angle between two vectors.
pub fn cosine<R: Scalar>(a: &[R], b: &[R]) -> (r: R)
    ensures
        r == cosine_of(a@, b@),
{
    if a.len() != b.len() || a.len() == 0 {
        return R::zero();
    }
    let na = dot(a, a);
    let nb = dot(b, b);
    let denom = greater(na.sqrt().times(nb.sqrt()), R::ratio(1, 1_000_000_000_000));
    dot(a, b).over(denom)
}

/// Computes the differences of the components.
pub fn subtract<R: Scalar>(a: &[R], b: &[R]) -> (r: Vec<R>)
    ensures
        r@ == difference(a@, b@),
{
    let n: usize = if a.len() <= b.len() {
        a.len()
    } else {
        b.len()
    };
    let mut r: Vec<R> = Vec::new();
    let mut i: usize = 0;
    while i < n
        invariant
            i <= n,
            n == common(a@, b@),
            r@ =~= difference(a@, b@).take(i as int),
        decreases n - i,
    {
        r.push(a[i].minus(b[i]));
        i += 1;
    }
    assert(difference(a@, b@).take(n as int) =~= difference(a@, b@));
    r
}

/// Computes the sums of the components.
pub fn total<R: Scalar>(a: &[R], b: &[R]) -> (r: Vec<R>)
    ensures
        r@ == sum(a@, b@),
{
    let n: usize = if a.len() <= b.len() {
        a.len()
    } else {
        b.len()
    };
    let mut r: Vec<R> = Vec::new();
    let mut i: usize = 0;
    while i < n
        invariant
            i <= n,
            n == common(a@, b@),
            r@ =~= sum(a@, b@).take(i as int),
        decreases n - i,
    {
        r.push(a[i].plus(b[i]));
        i += 1;
    }
    assert(sum(a@, b@).take(n as int) =~= sum(a@, b@));
    r
}

/// As many zeros as `n`.
pub fn zero_vec<R: Scalar>(n: usize) -> (r: Vec<R>)
    ensures
        r@ == zeros::<R>(n as nat),
{
    let mut r: Vec<R> = Vec::new();
    let mut i: usize = 0;
    while i < n
        invariant
            i <= n,
            r@ =~= zeros::<R>(i as nat),
        decreases n - i,
    {
        r.push(R::zero());
        i += 1;
    }
    r
}

} // verus!
