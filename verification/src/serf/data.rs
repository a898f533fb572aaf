//! Points with an attribute, queries, and the distance between vectors.

use vstd::prelude::*;
use vstd::slice::slice_subrange;

use crate::flat::lemma_cut_ends;
use crate::linalg::common;
use crate::metric::Distance;
use crate::scalar::{greater, greater_of, is_less, less, whole, Scalar};
use crate::table::copy_row;

verus! {

/// A vector and its attribute.
#[derive(Debug, Clone)]
pub struct Point<R> {
    pub id: u32,
    pub vec: Vec<R>,
    /// The attribute. It usually grows with every point that is added.
    pub attr: R,
}

/// A query: the vectors nearest to `vec` whose attribute lies between `lo` and
/// `hi`.
#[derive(Debug, Clone)]
pub struct Query<R> {
    pub vec: Vec<R>,
    pub lo: R,
    pub hi: R,
}

/// A collection of points.
#[derive(Debug, Clone)]
pub struct Dataset<R> {
    pub dim: usize,
    pub points: Vec<Point<R>>,
}

/// The square of the difference of two components.
pub open spec fn gap<R: Scalar>(a: Seq<R>, b: Seq<R>, i: int) -> R {
    a[i].minus_of(b[i]).times_of(a[i].minus_of(b[i]))
}

/// The sum of the squared differences of four components from `i` on.
pub open spec fn gaps<R: Scalar>(a: Seq<R>, b: Seq<R>, i: int) -> R {
    gap(a, b, i).plus_of(gap(a, b, i + 1)).plus_of(gap(a, b, i + 2)).plus_of(gap(a, b, i + 3))
}

/// The sum of the squared differences of the first `n` components: four by four
/// as far as they go, then one by one.
pub open spec fn gaps_upto<R: Scalar>(a: Seq<R>, b: Seq<R>, n: nat) -> R
    decreases n,
{
    if n == 0 {
        R::zero_of()
    } else if n % 4 == 0 {
        gaps_upto(a, b, (n - 4) as nat).plus_of(gaps(a, b, n - 4))
    } else {
        gaps_upto(a, b, (n - 1) as nat).plus_of(gap(a, b, n - 1))
    }
}

/// The squared Euclidean distance, over the components that both have.
pub open spec fn sq_l2_of<R: Scalar>(a: Seq<R>, b: Seq<R>) -> R {
    gaps_upto(a, b, common(a, b))
}

fn square_gap<R: Scalar>(a: &[R], b: &[R], i: usize) -> (r: R)
    requires
        i < a@.len(),
        i < b@.len(),
    ensures
        r == gap(a@, b@, i as int),
{
    let d: R = a[i].minus(b[i]);
    d.times(d)
}

/// The squared Euclidean distance.
pub fn sq_l2<R: Scalar>(a: &[R], b: &[R]) -> (r: R)
    ensures
        r == sq_l2_of(a@, b@),
{
    let n: usize = if a.len() <= b.len() {
        a.len()
    } else {
        b.len()
    };
    let mut sum: R = R::zero();
    let mut i: usize = 0;
    while n - i >= 4
        invariant
            i <= n,
            n <= a@.len(),
            n <= b@.len(),
            i % 4 == 0,
            sum == gaps_upto(a@, b@, i as nat),
        decreases n - i,
    {
        let four: R = square_gap(a, b, i).plus(square_gap(a, b, i + 1)).plus(
            square_gap(a, b, i + 2),
        ).plus(square_gap(a, b, i + 3));
        sum = sum.plus(four);
        i += 4;
    }
    while i < n
        invariant
            i <= n,
            n <= a@.len(),
            n <= b@.len(),
            n - i < 4,
            sum == gaps_upto(a@, b@, i as nat),
            n % 4 == (i % 4) + (n - i),
        decreases n - i,
    {
        sum = sum.plus(square_gap(a, b, i));
        i += 1;
    }
    sum
}

/// The squared Euclidean distance, as a metric.
#[derive(Clone, Copy, Debug)]
pub struct Squared;

impl<R: Scalar> Distance<R> for Squared {
    open spec fn spec_key(&self, a: Seq<R>, b: Seq<R>) -> u64 {
        sq_l2_of(a, b).key_of()
    }

    fn key(&self, a: &[R], b: &[R]) -> (k: u64) {
        sq_l2(a, b).key()
    }
}

/// Whether an attribute lies between two bounds, which belong to the range.
pub open spec fn within<R: Scalar>(attr: R, lo: R, hi: R) -> bool {
    !less(attr, lo) && !less(hi, attr)
}

/// Whether an attribute lies between two bounds, which belong to the range.
pub fn in_range<R: Scalar>(attr: R, lo: R, hi: R) -> (r: bool)
    ensures
        r == within(attr, lo, hi),
{
    !is_less(attr, lo) && !is_less(hi, attr)
}

/// The vectors of points.
pub open spec fn vectors<R>(points: Seq<Point<R>>) -> Seq<Seq<R>> {
    Seq::new(points.len(), |i: int| points[i].vec@)
}

/// The lesser of two values.
pub open spec fn lesser_of<R: Scalar>(a: R, b: R) -> R {
    if less(b, a) {
        b
    } else {
        a
    }
}

impl<R: Scalar> Query<R> {
    /// The query asks for points like `p`.
    pub open spec fn admits(self, p: Point<R>) -> bool {
        within(p.attr, self.lo, self.hi)
    }
}

impl<R: Scalar> Dataset<R> {
    /// A collection without points.
    pub fn new(dim: usize) -> (r: Self)
        ensures
            r.dim == dim,
            r.points@.len() == 0,
    {
        Dataset { dim, points: Vec::new() }
    }

    /// The number of points.
    pub fn len(&self) -> (r: usize)
        ensures
            r == self.points@.len(),
    {
        self.points.len()
    }

    /// Whether there are no points.
    pub fn is_empty(&self) -> (r: bool)
        ensures
            r == (self.points@.len() == 0),
    {
        self.points.len() == 0
    }

    /// `n` points of dimension `dim`, with the components given one point after
    /// another. The attribute of a point is its position, as its number is.
    pub fn random_gaussian(n: usize, dim: usize, normals: &[R]) -> (r: Self)
        requires
            normals@.len() == n * dim,
        ensures
            r.dim == dim,
            r.points@.len() == n,
            forall|i: int|
                0 <= i < n ==> {
                    let p = #[trigger] r.points@[i];
                    &&& p.id == i as u32
                    &&& p.vec@ == normals@.subrange(i * dim, i * dim + dim)
                    &&& p.attr == whole::<R>(i as u64)
                },
    {
        let mut r = Dataset::new(dim);
        let mut i: usize = 0;
        while i < n
            invariant
                i <= n,
                normals@.len() == n * dim,
                r.dim == dim,
                r.points@.len() == i,
                forall|i: int|
                    0 <= i < r.points@.len() ==> {
                        let p = #[trigger] r.points@[i];
                        &&& p.id == i as u32
                        &&& p.vec@ == normals@.subrange(i * dim, i * dim + dim)
                        &&& p.attr == whole::<R>(i as u64)
                    },
            decreases n - i,
        {
            let vec = copy_block(normals, i, n, dim);
            r.points.push(Point { id: i as u32, vec, attr: R::ratio(i as u64, 1) });
            i += 1;
        }
        r
    }

    /// The width of the ranges that a share of the points asks for.
    pub open spec fn span(&self, range_frac: R) -> R {
        greater_of(whole::<R>(self.points@.len() as u64).times_of(range_frac), whole::<R>(1))
    }

    /// The query with a given vector for the range that begins at `lo`.
    pub open spec fn query_from(&self, vec: Seq<R>, lo: R, range_frac: R, q: Query<R>) -> bool {
        &&& q.vec@ == vec
        &&& q.lo == lo
        &&& q.hi == lesser_of(
            lo.plus_of(self.span(range_frac)),
            whole::<R>(self.points@.len() as u64).minus_of(whole::<R>(1)),
        )
    }

    /// The bound below which ranges begin.
    pub fn start_bound(&self, range_frac: R) -> (r: R)
        ensures
            r == greater_of(
                whole::<R>(self.points@.len() as u64).minus_of(self.span(range_frac)),
                whole::<R>(1),
            ),
    {
        let n: R = R::ratio(self.points.len() as u64, 1);
        let span: R = greater(n.times(range_frac), R::ratio(1, 1));
        greater(n.minus(span), R::ratio(1, 1))
    }

    /// `q` queries, with the components given one vector after another and the
    /// lower bound of each range. The ranges cover about the share `range_frac`
    /// of the points.
    pub fn random_queries(&self, q: usize, range_frac: R, normals: &[R], starts: &[R]) -> (r: Vec<
        Query<R>,
    >)
        requires
            normals@.len() == q * self.dim,
            starts@.len() == q,
        ensures
            r@.len() == q,
            forall|i: int|
                0 <= i < q ==> self.query_from(
                    normals@.subrange(i * self.dim, i * self.dim + self.dim),
                    starts@[i],
                    range_frac,
                    #[trigger] r@[i],
                ),
    {
        let dim: usize = self.dim;
        let n: R = R::ratio(self.points.len() as u64, 1);
        let span: R = greater(n.times(range_frac), R::ratio(1, 1));
        let top: R = n.minus(R::ratio(1, 1));
        let mut r: Vec<Query<R>> = Vec::new();
        let mut i: usize = 0;
        while i < q
            invariant
                i <= q,
                dim == self.dim,
                normals@.len() == q * dim,
                starts@.len() == q,
                span == self.span(range_frac),
                top == whole::<R>(self.points@.len() as u64).minus_of(whole::<R>(1)),
                r@.len() == i,
                forall|i: int|
                    0 <= i < r@.len() ==> self.query_from(
                        normals@.subrange(i * self.dim, i * self.dim + self.dim),
                        starts@[i],
                        range_frac,
                        #[trigger] r@[i],
                    ),
            decreases q - i,
        {
            let vec = copy_block(normals, i, q, dim);
            let lo: R = starts[i];
            let end: R = lo.plus(span);
            let hi: R = if is_less(top, end) {
                top
            } else {
                end
            };
            r.push(Query { vec, lo, hi });
            i += 1;
        }
        r
    }
}

/// Copies block `i` of `n` blocks of `dim` components.
fn copy_block<R: Copy>(data: &[R], i: usize, n: usize, dim: usize) -> (r: Vec<R>)
    requires
        data@.len() == n * dim,
        i < n,
    ensures
        r@ == data@.subrange(i * dim, i * dim + dim),
{
    proof {
        lemma_cut_ends(n as nat, dim as nat, i as nat);
    }
    let _ = data.len();
    let start: usize = i * dim;
    copy_row(slice_subrange(data, start, start + dim))
}

} // verus!
