//! Uniform scalar quantizer with one byte per dimension.

use vstd::prelude::*;

use crate::flat::{lemma_split_rectangular, rectangular, split, Flat, Rows};
use crate::rpq::Quantizer;
use crate::scalar::{is_less, less, whole, Scalar};

verus! {

/// The least of the first `n` values in column `d`.
pub open spec fn least_in<R: Scalar>(table: Seq<Seq<R>>, d: int, n: nat) -> R
    decreases n,
{
    if n == 0 {
        R::infinity_of()
    } else {
        let rest = least_in(table, d, (n - 1) as nat);
        if less(table[n - 1][d], rest) {
            table[n - 1][d]
        } else {
            rest
        }
    }
}

/// The greatest of the first `n` values in column `d`.
pub open spec fn greatest_in<R: Scalar>(table: Seq<Seq<R>>, d: int, n: nat) -> R
    decreases n,
{
    if n == 0 {
        R::zero_of().minus_of(R::infinity_of())
    } else {
        let rest = greatest_in(table, d, (n - 1) as nat);
        if less(rest, table[n - 1][d]) {
            table[n - 1][d]
        } else {
            rest
        }
    }
}

/// No value of a column is less than the least one or greater than the greatest
/// one.
pub proof fn lemma_column_bounds<R: Scalar>(table: Seq<Seq<R>>, d: int, n: nat, i: int)
    requires
        0 <= i < n,
    ensures
        !less(table[i][d], least_in(table, d, n)),
        !less(greatest_in(table, d, n), table[i][d]),
    decreases n,
{
    if i < n - 1 {
        lemma_column_bounds(table, d, (n - 1) as nat, i);
    }
}

/// The smallest spread of a column that is quantized.
pub open spec fn narrowest<R: Scalar>() -> R {
    R::ratio_of(1, 1_000_000_000)
}

/// The steps per unit, and the size of a step, of a column with a given spread.
/// Both are zero where the spread is too small.
pub open spec fn steps_of<R: Scalar>(spread: R) -> (R, R) {
    if less(narrowest(), spread) {
        (whole::<R>(255).over_of(spread), spread.over_of(whole::<R>(255)))
    } else {
        (R::zero_of(), R::zero_of())
    }
}

/// The value that a byte stands for.
pub open spec fn value_of<R: Scalar>(lo: R, step: R, byte: u8) -> R {
    lo.plus_of(whole::<R>(byte as u64).times_of(step))
}

/// The sum of the squared differences between the first `n` components of a
/// query and the values of a code.
pub open spec fn byte_distances<R: Scalar>(
    lo: Seq<R>,
    step: Seq<R>,
    query: Seq<R>,
    code: Seq<u8>,
    n: nat,
) -> R
    decreases n,
{
    if n == 0 {
        R::zero_of()
    } else {
        let d = query[n - 1].minus_of(value_of(lo[n - 1], step[n - 1], code[n - 1]));
        byte_distances(lo, step, query, code, (n - 1) as nat).plus_of(d.times_of(d))
    }
}

/// Scalar quantizer: each component is replaced by the nearest of 256 evenly
/// spaced values between the least and the greatest one of its column.
pub struct Sq8<R> {
    dim: usize,
    lo: Vec<R>,
    /// Steps per unit; zero where a column has no spread.
    scale: Vec<R>,
    /// The size of a step.
    inv_scale: Vec<R>,
}

impl<R: Scalar> Sq8<R> {
    /// The least value of each column.
    pub closed spec fn lows(&self) -> Seq<R> {
        self.lo@
    }

    /// The steps per unit of each column.
    pub closed spec fn scales(&self) -> Seq<R> {
        self.scale@
    }

    /// The size of a step of each column.
    pub closed spec fn steps(&self) -> Seq<R> {
        self.inv_scale@
    }

    /// Finds the spread of each column of `train`.
    pub fn train(train: &[R], dim: usize) -> (r: Self)
        requires
            dim > 0,
            train@.len() > 0,
            train@.len() as int % dim as int == 0,
        ensures
            r.valid(),
            r.width() == dim,
            ({
                let table = split(train@, dim as nat);
                forall|d: int|
                    #![trigger r.lows()[d]]
                    #![trigger r.scales()[d]]
                    #![trigger r.steps()[d]]
                    0 <= d < dim ==> {
                        let lo = least_in(table, d, table.len());
                        let spread = greatest_in(table, d, table.len()).minus_of(lo);
                        &&& r.lows()[d] == lo
                        &&& r.scales()[d] == steps_of(spread).0
                        &&& r.steps()[d] == steps_of(spread).1
                    }
            }),
    {
        let table = Flat::new(train, dim);
        let n: usize = table.count();
        let ghost all = table.all();
        proof {
            lemma_split_rectangular(train@, dim as nat);
        }
        let mut lo: Vec<R> = Vec::new();
        let mut scale: Vec<R> = Vec::new();
        let mut inv_scale: Vec<R> = Vec::new();
        let mut d: usize = 0;
        while d < dim
            invariant
                d <= dim,
                n == all.len(),
                all == table.all(),
                rectangular(all, dim as nat),
                lo@.len() == d,
                scale@.len() == d,
                inv_scale@.len() == d,
                forall|x: int|
                    #![trigger lo@[x]]
                    #![trigger scale@[x]]
                    #![trigger inv_scale@[x]]
                    0 <= x < d ==> {
                        let low = least_in(all, x, n as nat);
                        let spread = greatest_in(all, x, n as nat).minus_of(low);
                        &&& lo@[x] == low
                        &&& scale@[x] == steps_of(spread).0
                        &&& inv_scale@[x] == steps_of(spread).1
                    },
            decreases dim - d,
        {
            let mut low = R::infinity();
            let mut high = R::zero().minus(R::infinity());
            let mut i: usize = 0;
            while i < n
                invariant
                    i <= n,
                    d < dim,
                    n == all.len(),
                    all == table.all(),
                    rectangular(all, dim as nat),
                    low == least_in(all, d as int, i as nat),
                    high == greatest_in(all, d as int, i as nat),
                decreases n - i,
            {
                let row = table.row(i);
                assert(row@.len() == dim) by {
                    assert(all[i as int].len() == dim);
                }
                let x = row[d];
                if is_less(x, low) {
                    low = x;
                }
                if is_less(high, x) {
                    high = x;
                }
                i += 1;
            }
            let spread = high.minus(low);
            lo.push(low);
            if is_less(R::ratio(1, 1_000_000_000), spread) {
                scale.push(R::ratio(255, 1).over(spread));
                inv_scale.push(spread.over(R::ratio(255, 1)));
            } else {
                scale.push(R::zero());
                inv_scale.push(R::zero());
            }
            d += 1;
        }
        Sq8 { dim, lo, scale, inv_scale }
    }
}

impl<R: Scalar> Quantizer<R> for Sq8<R> {
    closed spec fn valid(&self) -> bool {
        &&& self.lo@.len() == self.dim
        &&& self.scale@.len() == self.dim
        &&& self.inv_scale@.len() == self.dim
    }

    closed spec fn width(&self) -> nat {
        self.dim as nat
    }

    open spec fn code_len(&self) -> nat {
        self.width()
    }

    open spec fn code(&self, x: Seq<R>) -> Seq<u8> {
        Seq::new(
            self.width(),
            |d: int| x[d].minus_of(self.lows()[d]).times_of(self.scales()[d]).byte_of(),
        )
    }

    open spec fn estimate(&self, query: Seq<R>, code: Seq<u8>) -> R {
        byte_distances(self.lows(), self.steps(), query, code, self.width())
    }

    open spec fn label(&self) -> Seq<char> {
        "sq8"@
    }

    fn dim(&self) -> (r: usize) {
        self.dim
    }

    fn code_bytes(&self) -> (r: usize) {
        self.dim
    }

    fn encode(&self, x: &[R], out: &mut [u8]) {
        let mut d: usize = 0;
        while d < self.dim
            invariant
                d <= self.dim,
                self.valid(),
                x@.len() == self.dim,
                out@.len() == self.dim,
                forall|j: int| 0 <= j < d ==> #[trigger] out@[j] == self.code(x@)[j],
            decreases self.dim - d,
        {
            out[d] = x[d].minus(self.lo[d]).times(self.scale[d]).byte();
            d += 1;
        }
        assert(out@ =~= self.code(x@));
    }

    fn adc_sq_distance(&self, query: &[R], encoded: &[u8]) -> (r: R) {
        let mut s = R::zero();
        let mut d: usize = 0;
        while d < self.dim
            invariant
                d <= self.dim,
                self.valid(),
                query@.len() == self.dim,
                encoded@.len() == self.dim,
                s == byte_distances(self.lo@, self.inv_scale@, query@, encoded@, d as nat),
            decreases self.dim - d,
        {
            let recon = self.lo[d].plus(R::ratio(encoded[d] as u64, 1).times(self.inv_scale[d]));
            let diff = query[d].minus(recon);
            s = s.plus(diff.times(diff));
            d += 1;
        }
        s
    }

    fn name(&self) -> (r: &'static str) {
        "sq8"
    }
}

} // verus!
