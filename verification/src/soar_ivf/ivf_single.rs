//! Inverted file with one list per vector.

use vstd::prelude::*;

use crate::cluster::nearest_centre;
use crate::flat::rectangular;
use crate::linalg::{sq_l2, sq_l2_of};
use crate::scalar::{Scalar, Widen};
use crate::soar_ivf::dataset::lcg_seeded;
use crate::soar_ivf::ivf_common::{
    centroid_bytes, nearest_centroid_idx, posting_bytes, postings_below, probe_and_scan,
    probe_and_scan_approx, trained, Centroids, IvfVariant, PostingLists,
};
use crate::soar_ivf::metrics::Hit;
use crate::soar_ivf::postings::{filled, lemma_filled, posting_count, targets_below, unfilled};
use crate::table::rows;

verus! {

/// The distance of a vector to a centroid.
pub open spec fn residual_norm<R: Scalar>(x: Seq<R>, centroid: Seq<R>) -> R {
    sq_l2_of(x, centroid).sqrt_of()
}

/// Each vector goes to its nearest centroid.
pub open spec fn single_targets<R: Scalar>(
    vectors: Seq<Seq<R>>,
    centroids: Seq<Seq<R>>,
) -> Seq<Seq<(usize, R)>> {
    Seq::new(
        vectors.len(),
        |i: int|
            {
                let c = nearest_centre(vectors[i], centroids);
                seq![(c as usize, residual_norm(vectors[i], centroids[c as int]))]
            },
    )
}

/// One posting per vector.
pub proof fn lemma_single_count<R: Scalar>(
    vectors: Seq<Seq<R>>,
    centroids: Seq<Seq<R>>,
    n: nat,
)
    requires
        n <= vectors.len(),
    ensures
        posting_count(single_targets(vectors, centroids), n) == n,
    decreases n,
{
    if n > 0 {
        lemma_single_count(vectors, centroids, (n - 1) as nat);
    }
}

/// Inverted file that puts each vector into the list of its nearest centroid.
pub struct IvfSingle<'v, R> {
    pub centroids: Centroids<R>,
    pub lists: PostingLists<R>,
    pub vectors: &'v [Vec<R>],
}

impl<'v, R: Scalar> IvfSingle<'v, R> {
    /// Trains the centroids and fills the lists.
    pub fn build<W: Scalar>(
        vectors: &'v [Vec<R>],
        n_centroids: usize,
        iters: usize,
        seed: u64,
    ) -> (r: Self) where R: Widen<W>
        requires
            vectors@.len() > 0,
            n_centroids >= 1,
            rectangular(rows(vectors@), vectors@[0]@.len()),
        ensures
            r.ready(),
            r.vectors@ == vectors@,
            r.centroids.dims == vectors@[0]@.len(),
            r.centroids.all() == trained::<R, W>(
                rows(vectors@),
                r.centroids.dims as nat,
                n_centroids as nat,
                iters as nat,
                lcg_seeded(seed),
            ).0,
            r.lists.contents() == filled(
                n_centroids as nat,
                single_targets(rows(vectors@), r.centroids.all()),
                vectors@.len(),
            ),
            r.lists.total_entries == vectors@.len(),
            r.lists.dup_count == 0,
    {
        let centroids = Centroids::train::<W>(vectors, n_centroids, iters, seed);
        let mut lists: PostingLists<R> = PostingLists::new(centroids.len());
        let n: usize = vectors.len();
        let ghost table = rows(vectors@);
        let ghost cents = centroids.all();
        let ghost to = single_targets(table, cents);
        let mut id: usize = 0;
        proof {
            assert(rows(lists.lists@).len() == lists.lists@.len());
            assert(lists.contents() == unfilled::<R>(n_centroids as nat));
        }
        while id < n
            invariant
                id <= n,
                n == vectors@.len(),
                table == rows(vectors@),
                cents == centroids.all(),
                cents.len() == n_centroids,
                n_centroids >= 1,
                to == single_targets(table, cents),
                lists.wf(),
                lists.lists@.len() == n_centroids,
                lists.total_entries == id,
                lists.dup_count == 0,
                lists.contents() == filled(n_centroids as nat, to, id as nat),
            decreases n - id,
        {
            let v: &Vec<R> = &vectors[id];
            let c: usize = nearest_centroid_idx(v.as_slice(), centroids.vecs.as_slice());
            let rn = sq_l2(v.as_slice(), centroids.vecs[c].as_slice()).sqrt();
            assert(table[id as int] == v@);
            assert(cents[c as int] == centroids.vecs@[c as int]@);
            let target = [(c, rn)];
            assert(target@ =~= to[id as int]);
            lists.post(id, &target);
            id += 1;
        }
        proof {
            assert forall|i: int| 0 <= i < to.len() implies targets_below(
                #[trigger] to[i],
                n_centroids as nat,
            ) by {
                crate::cluster::lemma_nearest_centre(table[i], cents, cents.len());
            }
            lemma_filled(n_centroids as nat, to, n as nat);
        }
        IvfSingle { centroids, lists, vectors }
    }
}

impl<'v, R: Scalar> IvfVariant<R> for IvfSingle<'v, R> {
    open spec fn ready(&self) -> bool {
        &&& self.lists.wf()
        &&& self.centroids.all().len() <= self.lists.lists@.len()
        &&& postings_below(rows(self.lists.lists@), self.vectors@.len())
    }

    open spec fn centres(&self) -> Centroids<R> {
        self.centroids
    }

    open spec fn postings(&self) -> PostingLists<R> {
        self.lists
    }

    open spec fn corpus(&self) -> Seq<Seq<R>> {
        rows(self.vectors@)
    }

    open spec fn spilled(&self) -> nat {
        0
    }

    open spec fn label(&self) -> Seq<char> {
        "IVF-Single"@
    }

    fn name(&self) -> (r: &str) {
        "IVF-Single"
    }

    fn search(&self, query: &[R], k: usize, n_probe: usize) -> (r: Vec<Hit<R>>) {
        probe_and_scan(query, k, n_probe, &self.centroids, &self.lists, self.vectors)
    }

    fn search_approx(&self, query: &[R], k: usize, n_probe: usize) -> (r: Vec<Hit<R>>) {
        probe_and_scan_approx(query, k, n_probe, &self.centroids, &self.lists)
    }

    fn memory_bytes(&self) -> (r: usize) {
        centroid_bytes(&self.centroids) + posting_bytes(&self.lists)
    }

    fn spill_overhead(&self) -> (r: usize) {
        0
    }
}

} // verus!
