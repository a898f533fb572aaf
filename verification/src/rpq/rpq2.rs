//! Two-level residual product quantizer.

use vstd::prelude::*;
use vstd::slice::slice_subrange;

use crate::flat::{flatten, lemma_split_rectangular, rectangular, split, Flat, Rows};
use crate::linalg::{difference, subtract};
use crate::rpq::pq::{
    block_distances, books_trained, code_of, lemma_looked_up, table_of, vector_of, Pq, CENTROIDS,
};
use crate::rpq::rng::Rng;
use crate::rpq::Quantizer;
use crate::scalar::{Scalar, Widen};
use crate::table::{copy_into, rows};

verus! {

/// What a quantizer leaves of each row.
pub open spec fn residuals_of<R: Scalar>(
    table: Seq<Seq<R>>,
    books: Seq<Seq<Seq<R>>>,
    sub: nat,
) -> Seq<Seq<R>> {
    Seq::new(
        table.len(),
        |i: int| difference(table[i], vector_of(books, sub, code_of(books, sub, table[i]))),
    )
}

/// Quantizer with a coarse level and a level for what that leaves. A code is
/// the coarse code and behind it the residual code.
pub struct Rpq2<R> {
    dim: usize,
    pq1: Pq<R>,
    pq2: Pq<R>,
}

impl<R: Scalar> Rpq2<R> {
    /// The coarse level.
    pub closed spec fn coarse(&self) -> Pq<R> {
        self.pq1
    }

    /// The residual level.
    pub closed spec fn residual(&self) -> Pq<R> {
        self.pq2
    }

    /// Both levels are well-formed and as wide as the vectors.
    pub closed spec fn wf(&self) -> bool {
        &&& self.pq1.wf()
        &&& self.pq2.wf()
        &&& self.pq1.width() == self.dim
        &&& self.pq2.width() == self.dim
        &&& self.pq1.blocks() + self.pq2.blocks() <= usize::MAX
    }

    /// What the coarse level leaves of a vector.
    pub open spec fn left_over(&self, x: Seq<R>) -> Seq<R> {
        let pq1 = self.coarse();
        difference(x, vector_of(pq1.books(), pq1.sub(), code_of(pq1.books(), pq1.sub(), x)))
    }

    /// What is left of a query when the vector of a coarse code is taken away.
    pub open spec fn shifted(&self, query: Seq<R>, coarse_code: Seq<u8>) -> Seq<R> {
        difference(query, vector_of(self.coarse().books(), self.coarse().sub(), coarse_code))
    }

    /// What well-formedness says of the levels.
    pub proof fn lemma_wf(&self)
        requires
            self.wf(),
        ensures
            self.coarse().wf(),
            self.residual().wf(),
            self.coarse().width() == self.residual().width(),
            self.width() == self.coarse().width(),
            self.code_len() == self.coarse().blocks() + self.residual().blocks(),
            self.code_len() <= usize::MAX,
    {
    }

    /// Trains the coarse level on the rows of `train`, and the residual level on
    /// what it leaves of them.
    pub fn train<W: Scalar>(
        train: &[R],
        dim: usize,
        m1: usize,
        m2: usize,
        iters: usize,
        rng: &mut Rng,
    ) -> (r: Self) where R: Widen<W>
        requires
            0 < m1 <= dim,
            0 < m2 <= dim,
            dim as int % m1 as int == 0,
            dim as int % m2 as int == 0,
            train@.len() / dim as nat >= CENTROIDS,
            m1 * CENTROIDS <= usize::MAX,
            m2 * CENTROIDS <= usize::MAX,
        ensures
            r.wf(),
            r.width() == dim,
            r.coarse().blocks() == m1,
            r.residual().blocks() == m2,
            ({
                let table = split(train@, dim as nat);
                let first = books_trained::<R, W>(
                    table,
                    r.coarse().sub(),
                    m1 as nat,
                    iters as nat,
                    old(rng)@,
                );
                let second = books_trained::<R, W>(
                    residuals_of(table, first.0, r.coarse().sub()),
                    r.residual().sub(),
                    m2 as nat,
                    iters as nat,
                    first.1,
                );
                &&& r.coarse().books() == first.0
                &&& r.residual().books() == second.0
                &&& final(rng)@ == second.1
            }),
    {
        let pq1 = Pq::train::<W>(train, dim, m1, iters, rng);
        let table = Flat::new(train, dim);
        let n: usize = table.count();
        let ghost all = table.all();
        let ghost left = residuals_of(all, pq1.books(), pq1.sub());
        proof {
            lemma_split_rectangular(train@, dim as nat);
        }
        let mut residuals: Vec<Vec<R>> = Vec::new();
        let mut i: usize = 0;
        while i < n
            invariant
                i <= n,
                n == all.len(),
                all == table.all(),
                rectangular(all, dim as nat),
                pq1.wf(),
                pq1.width() == dim,
                left == residuals_of(all, pq1.books(), pq1.sub()),
                residuals@.len() == i,
                forall|x: int|
                    0 <= x < i ==> (#[trigger] residuals@[x])@ == left[x] && left[x].len() == dim,
            decreases n - i,
        {
            let x = table.row(i);
            assert(x@.len() == dim) by {
                assert(all[i as int].len() == dim);
            }
            let code = pq1.encoded(x);
            let recon = pq1.decoded(code.as_slice());
            let rest = subtract(x, recon.as_slice());
            assert(rest@ == left[i as int]);
            residuals.push(rest);
            i += 1;
        }
        assert(rows(residuals@) =~= left);
        assert(rectangular(left, dim as nat)) by {
            assert forall|x: int| 0 <= x < left.len() implies (#[trigger] left[x]).len() == dim by {
                assert(residuals@[x]@ == left[x]);
            }
        }
        let flat_residuals = flatten(residuals.as_slice(), dim);
        proof {
            assert(flat_residuals@.len() / dim as nat == n) by (nonlinear_arith)
                requires
                    flat_residuals@.len() == n * dim,
                    dim > 0,
            ;
        }
        let pq2 = Pq::train::<W>(flat_residuals.as_slice(), dim, m2, iters, rng);
        proof {
            assert(m1 + m2 <= usize::MAX) by (nonlinear_arith)
                requires
                    m1 * CENTROIDS <= usize::MAX,
                    m2 * CENTROIDS <= usize::MAX,
                    CENTROIDS == 256,
            ;
        }
        Rpq2 { dim, pq1, pq2 }
    }

    /// The bytes that the coarse level takes.
    pub fn m1(&self) -> (r: usize)
        ensures
            r == self.coarse().blocks(),
    {
        self.pq1.m()
    }

    /// The bytes that the residual level takes.
    pub fn m2(&self) -> (r: usize)
        ensures
            r == self.residual().blocks(),
    {
        self.pq2.m()
    }

    /// The coarse level.
    pub fn pq1(&self) -> (r: &Pq<R>)
        ensures
            *r == self.coarse(),
    {
        &self.pq1
    }

    /// The residual level.
    pub fn pq2(&self) -> (r: &Pq<R>)
        ensures
            *r == self.residual(),
    {
        &self.pq2
    }
}

impl<R: Scalar> Quantizer<R> for Rpq2<R> {
    open spec fn valid(&self) -> bool {
        self.wf()
    }

    closed spec fn width(&self) -> nat {
        self.dim as nat
    }

    open spec fn code_len(&self) -> nat {
        self.coarse().blocks() + self.residual().blocks()
    }

    open spec fn code(&self, x: Seq<R>) -> Seq<u8> {
        code_of(self.coarse().books(), self.coarse().sub(), x) + code_of(
            self.residual().books(),
            self.residual().sub(),
            self.left_over(x),
        )
    }

    open spec fn estimate(&self, query: Seq<R>, code: Seq<u8>) -> R {
        let m1 = self.coarse().blocks() as int;
        let pq2 = self.residual();
        block_distances(
            pq2.books(),
            pq2.sub(),
            self.shifted(query, code.take(m1)),
            code.skip(m1),
            pq2.blocks(),
        )
    }

    open spec fn label(&self) -> Seq<char> {
        "rpq2"@
    }

    fn dim(&self) -> (r: usize) {
        self.dim
    }

    fn code_bytes(&self) -> (r: usize) {
        self.pq1.m() + self.pq2.m()
    }

    fn encode(&self, x: &[R], out: &mut [u8]) {
        let mut code = self.pq1.encoded(x);
        let recon = self.pq1.decoded(code.as_slice());
        let rest = subtract(x, recon.as_slice());
        let mut second = self.pq2.encoded(rest.as_slice());
        code.append(&mut second);
        copy_into(code.as_slice(), out);
    }

    fn adc_sq_distance(&self, query: &[R], encoded: &[u8]) -> (r: R) {
        let m1: usize = self.pq1.m();
        let c1 = slice_subrange(encoded, 0, m1);
        let c2 = slice_subrange(encoded, m1, encoded.len());
        proof {
            assert(c1@ =~= encoded@.take(m1 as int));
            assert(c2@ =~= encoded@.skip(m1 as int));
        }
        residual_distance(self, query, c1, c2)
    }

    fn name(&self) -> (r: &'static str) {
        "rpq2"
    }
}

/// The distance of a query to a code in two parts.
fn residual_distance<R: Scalar>(rpq: &Rpq2<R>, query: &[R], c1: &[u8], c2: &[u8]) -> (r: R)
    requires
        rpq.wf(),
        query@.len() == rpq.width(),
        c1@.len() == rpq.coarse().blocks(),
        c2@.len() == rpq.residual().blocks(),
    ensures
        r == block_distances(
            rpq.residual().books(),
            rpq.residual().sub(),
            rpq.shifted(query@, c1@),
            c2@,
            rpq.residual().blocks(),
        ),
{
    let lut2 = residual_table(rpq, query, c1);
    proof {
        rpq.residual().lemma_wf();
        lemma_looked_up(
            rpq.residual().books(),
            rpq.residual().sub(),
            rpq.shifted(query@, c1@),
            c2@,
            rpq.residual().blocks(),
        );
    }
    rpq.pq2.adc_from_lut(lut2.as_slice(), c2)
}

/// The table of the residual level for a query and a coarse code.
pub(crate) fn residual_table<R: Scalar>(rpq: &Rpq2<R>, query: &[R], c1: &[u8]) -> (r: Vec<R>)
    requires
        rpq.wf(),
        query@.len() == rpq.width(),
        c1@.len() == rpq.coarse().blocks(),
    ensures
        r@ == table_of(
            rpq.residual().books(),
            rpq.residual().sub(),
            rpq.shifted(query@, c1@),
        ),
        r@.len() == rpq.residual().blocks() * CENTROIDS,
{
    let r1 = rpq.pq1.decoded(c1);
    let qprime = subtract(query, r1.as_slice());
    rpq.pq2.compute_lut(qprime.as_slice())
}

} // verus!
