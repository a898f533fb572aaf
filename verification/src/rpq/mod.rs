//! Residual product quantization.
//!
//! A quantizer replaces vectors by short codes. A query stays as it is, and its
//! distance to a code is estimated from the centroids that the code names.

pub mod estimate_laws;
pub mod kmeans;
pub mod kmeans_laws;
pub mod pq;
pub mod rng;
pub mod rpq2;
pub mod scorer;
pub mod seeding_laws;
pub mod sq8;
pub mod sweep;
pub mod training_laws;

use vstd::prelude::*;

use crate::flat::{split, Flat, Rows};
use crate::linalg::{sq_l2, sq_l2_of};
use crate::overlap::{hits, hits_upto};
use crate::rpq::pq::{block_distances, code_of, lemma_looked_up};
use crate::scalar::{whole, Scalar};
use crate::sorting::{lemma_top_k, select_top_k, top_k};
use crate::spaces::{payloads, take_payloads};
use crate::table::holds;

pub use crate::rpq::kmeans::kmeans;
pub use crate::rpq::pq::Pq;
pub use crate::rpq::rng::Rng;
pub use crate::rpq::rpq2::Rpq2;
pub use crate::rpq::scorer::Rpq2Scorer;
pub use crate::rpq::sq8::Sq8;

verus! {

/// A quantizer that estimates squared Euclidean distances.
pub trait Quantizer<R: Scalar> {
    /// The quantizer is well-formed.
    spec fn valid(&self) -> bool;

    /// The number of components of a vector.
    spec fn width(&self) -> nat;

    /// The number of bytes of a code.
    spec fn code_len(&self) -> nat;

    /// The code of a vector.
    spec fn code(&self, x: Seq<R>) -> Seq<u8>;

    /// The estimated distance of a query to a code.
    spec fn estimate(&self, query: Seq<R>, code: Seq<u8>) -> R;

    /// The number of components of a vector.
    fn dim(&self) -> (r: usize)
        requires
            self.valid(),
        ensures
            r == self.width(),
    ;

    /// The number of bytes of a code.
    fn code_bytes(&self) -> (r: usize)
        requires
            self.valid(),
        ensures
            r == self.code_len(),
    ;

    /// Computes the code of a vector.
    fn encode(&self, x: &[R], out: &mut [u8])
        requires
            self.valid(),
            x@.len() == self.width(),
            old(out)@.len() == self.code_len(),
        ensures
            final(out)@ == self.code(x@),
            final(out)@.len() == old(out)@.len(),
    ;

    /// Estimates the distance of a query to a code.
    fn adc_sq_distance(&self, query: &[R], encoded: &[u8]) -> (r: R)
        requires
            self.valid(),
            query@.len() == self.width(),
            encoded@.len() == self.code_len(),
        ensures
            r == self.estimate(query@, encoded@),
    ;

    /// The name of the quantizer.
    spec fn label(&self) -> Seq<char>;

    /// The name of the quantizer.
    fn name(&self) -> (r: &'static str)
        ensures
            r@ == self.label(),
    ;
}

impl<R: Scalar> Quantizer<R> for Pq<R> {
    open spec fn valid(&self) -> bool {
        self.wf()
    }

    open spec fn width(&self) -> nat {
        Pq::width(self)
    }

    open spec fn code_len(&self) -> nat {
        self.blocks()
    }

    open spec fn code(&self, x: Seq<R>) -> Seq<u8> {
        code_of(self.books(), self.sub(), x)
    }

    open spec fn estimate(&self, query: Seq<R>, code: Seq<u8>) -> R {
        block_distances(self.books(), self.sub(), query, code, self.blocks())
    }

    open spec fn label(&self) -> Seq<char> {
        "pq"@
    }

    fn dim(&self) -> (r: usize) {
        Pq::dim(self)
    }

    fn code_bytes(&self) -> (r: usize) {
        self.m()
    }

    fn encode(&self, x: &[R], out: &mut [u8]) {
        proof {
            self.lemma_wf();
        }
        self.encode_raw(x, out);
    }

    fn adc_sq_distance(&self, query: &[R], encoded: &[u8]) -> (r: R) {
        let lut = self.compute_lut(query);
        proof {
            self.lemma_wf();
            lemma_looked_up(self.books(), self.sub(), query@, encoded@, self.blocks());
        }
        self.adc_from_lut(lut.as_slice(), encoded)
    }

    fn name(&self) -> (r: &'static str) {
        "pq"
    }
}

/// The distance of each row to a query, with the number of the row.
pub open spec fn scored<R: Scalar>(query: Seq<R>, table: Seq<Seq<R>>) -> Seq<(u64, u32)> {
    Seq::new(table.len(), |i: int| (sq_l2_of(query, table[i]).key_of(), i as u32))
}

/// The `k` rows nearest to a query.
pub open spec fn nearest_rows<R: Scalar>(query: Seq<R>, table: Seq<Seq<R>>, k: nat) -> Seq<u32> {
    payloads(top_k(scored(query, table), k))
}

/// Scans all rows of `data` for the `k` nearest to `query`. Of rows at one
/// distance the earlier one comes first.
pub fn brute_topk<R: Scalar>(query: &[R], data: &[R], dim: usize, k: usize) -> (r: Vec<u32>)
    requires
        dim > 0,
        1 <= k <= data@.len() / dim as nat <= 0x1_0000_0000,
    ensures
        r@ == nearest_rows(query@, split(data@, dim as nat), k as nat),
        r@.len() == k,
{
    let table = Flat::new(data, dim);
    let n: usize = table.count();
    let ghost all = scored(query@, table.all());
    let mut pairs: Vec<(u64, u32)> = Vec::new();
    let mut i: usize = 0;
    while i < n
        invariant
            i <= n,
            n == table.all().len(),
            n <= 0x1_0000_0000,
            all == scored(query@, table.all()),
            pairs@ =~= all.take(i as int),
        decreases n - i,
    {
        pairs.push((sq_l2(query, table.row(i)).key(), i as u32));
        i += 1;
    }
    assert(all.take(n as int) =~= all);
    proof {
        lemma_top_k(all, k as nat);
    }
    let top = select_top_k(pairs.as_slice(), k);
    take_payloads(top.as_slice())
}

/// The share of `truth` that `predicted` hits: the number of predicted entries
/// that are in it, over its length.
pub open spec fn recall_of<R: Scalar>(truth: Seq<u32>, predicted: Seq<u32>) -> R {
    whole::<R>(hits(predicted, truth) as u64).over_of(whole::<R>(truth.len() as u64))
}

/// The share of `truth` that `predicted` hits: the number of predicted entries
/// that are in it, over its length.
pub fn recall_at_k<R: Scalar>(truth: &[u32], predicted: &[u32]) -> (r: R)
    ensures
        r == recall_of::<R>(truth@, predicted@),
{
    let n: usize = predicted.len();
    let mut hit: u64 = 0;
    let mut i: usize = 0;
    while i < n
        invariant
            i <= n,
            n == predicted@.len(),
            hit == hits_upto(predicted@, truth@, i as nat),
            hit <= i,
        decreases n - i,
    {
        if holds(truth, predicted[i]) {
            hit += 1;
        }
        i += 1;
    }
    R::ratio(hit, 1).over(R::ratio(truth.len() as u64, 1))
}

} // verus!
