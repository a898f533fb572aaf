//! Inverted file that copies each vector into its nearest lists.

use vstd::prelude::*;

use crate::flat::rectangular;
use crate::scalar::{Scalar, Widen};
use crate::soar_ivf::dataset::lcg_seeded;
use crate::soar_ivf::ivf_common::{
    centroid_bytes, lemma_ranking, posting_bytes, postings_below, probe_and_scan,
    probe_and_scan_approx, rank_centroids, ranking, trained, with_distances, Centroids, IvfVariant,
    PostingLists,
};
use crate::soar_ivf::ivf_single::residual_norm;
use crate::soar_ivf::metrics::Hit;
use crate::soar_ivf::postings::{filled, lemma_filled, posting_count, targets_below, unfilled};
use crate::sorting::first_n;
use crate::table::rows;

verus! {

/// Centroids as targets of a vector.
pub open spec fn targets<R: Scalar>(
    x: Seq<R>,
    centroids: Seq<Seq<R>>,
    chosen: Seq<usize>,
) -> Seq<(usize, R)> {
    Seq::new(chosen.len(), |i: int| (chosen[i], residual_norm(x, centroids[chosen[i] as int])))
}

/// Each vector goes to its `spill` nearest centroids.
pub open spec fn spill_targets<R: Scalar>(
    vectors: Seq<Seq<R>>,
    centroids: Seq<Seq<R>>,
    spill: nat,
) -> Seq<Seq<(usize, R)>> {
    Seq::new(
        vectors.len(),
        |i: int| targets(vectors[i], centroids, first_n(ranking(vectors[i], centroids), spill)),
    )
}

/// The number of the first `n` vectors that are in more than one list.
pub open spec fn spread(spill: nat, n_centroids: nat, n: nat) -> nat {
    if lesser(spill, n_centroids) >= 2 {
        n
    } else {
        0
    }
}

/// The lesser of two numbers.
pub open spec fn lesser(a: nat, b: nat) -> nat {
    if a <= b {
        a
    } else {
        b
    }
}

/// Each vector is posted `spill` times, or once per centroid where there are
/// fewer.
pub proof fn lemma_spill_count<R: Scalar>(
    vectors: Seq<Seq<R>>,
    centroids: Seq<Seq<R>>,
    spill: nat,
    n: nat,
)
    requires
        n <= vectors.len(),
        centroids.len() <= usize::MAX,
    ensures
        posting_count(spill_targets(vectors, centroids, spill), n) == n * lesser(
            spill,
            centroids.len(),
        ),
    decreases n,
{
    if n > 0 {
        lemma_spill_count(vectors, centroids, spill, (n - 1) as nat);
        lemma_ranking(vectors[n - 1], centroids);
        let each = lesser(spill, centroids.len());
        assert((n - 1) * each + each == n * each) by (nonlinear_arith);
    }
}

/// Inverted file that copies each vector into the lists of its nearest
/// centroids.
pub struct IvfSpillTopK<'v, R> {
    pub centroids: Centroids<R>,
    pub lists: PostingLists<R>,
    pub vectors: &'v [Vec<R>],
    pub spill: usize,
    pub duplicates: usize,
}

impl<'v, R: Scalar> IvfSpillTopK<'v, R> {
    /// Trains the centroids and fills the lists. Each vector is copied into
    /// `spill` lists.
    pub fn build<W: Scalar>(
        vectors: &'v [Vec<R>],
        n_centroids: usize,
        spill: usize,
        iters: usize,
        seed: u64,
    ) -> (r: Self) where R: Widen<W>
        requires
            vectors@.len() > 0,
            n_centroids >= 1,
            spill >= 1,
            rectangular(rows(vectors@), vectors@[0]@.len()),
            vectors@.len() * lesser(spill as nat, n_centroids as nat) <= usize::MAX,
        ensures
            r.ready(),
            r.vectors@ == vectors@,
            r.spill == spill,
            r.centroids.dims == vectors@[0]@.len(),
            r.centroids.all() == trained::<R, W>(
                rows(vectors@),
                r.centroids.dims as nat,
                n_centroids as nat,
                iters as nat,
                lcg_seeded(seed),
            ).0,
            r.lists.contents() == filled(
                n_centroids as nat,
                spill_targets(rows(vectors@), r.centroids.all(), spill as nat),
                vectors@.len(),
            ),
            r.lists.total_entries == vectors@.len() * lesser(spill as nat, n_centroids as nat),
            r.duplicates == r.lists.total_entries - vectors@.len(),
            r.lists.dup_count == spread(spill as nat, n_centroids as nat, vectors@.len()),
    {
        let centroids = Centroids::train::<W>(vectors, n_centroids, iters, seed);
        let mut lists: PostingLists<R> = PostingLists::new(centroids.len());
        let n: usize = vectors.len();
        let ghost table = rows(vectors@);
        let ghost cents = centroids.all();
        let ghost to = spill_targets(table, cents, spill as nat);
        let ghost each = lesser(spill as nat, n_centroids as nat);
        let mut dup: usize = 0;
        let mut repeated: usize = 0;
        let mut id: usize = 0;
        proof {
            assert(rows(lists.lists@).len() == lists.lists@.len());
            assert(lists.contents() == unfilled::<R>(n_centroids as nat));
            assert(0 * each == 0);
        }
        while id < n
            invariant
                id <= n,
                n == vectors@.len(),
                table == rows(vectors@),
                cents == centroids.all(),
                cents.len() == n_centroids,
                n_centroids >= 1,
                spill >= 1,
                to == spill_targets(table, cents, spill as nat),
                each == lesser(spill as nat, n_centroids as nat),
                n * each <= usize::MAX,
                lists.wf(),
                lists.lists@.len() == n_centroids,
                lists.total_entries == id * each,
                lists.dup_count == 0,
                dup == id * each - id,
                repeated == spread(spill as nat, n_centroids as nat, id as nat),
                lists.contents() == filled(n_centroids as nat, to, id as nat),
            decreases n - id,
        {
            let v: &Vec<R> = &vectors[id];
            assert(table[id as int] == v@);
            let ranked = rank_centroids(v.as_slice(), centroids.vecs.as_slice());
            let count: usize = if spill <= ranked.len() {
                spill
            } else {
                ranked.len()
            };
            let mut target: Vec<(usize, R)> = Vec::new();
            let mut i: usize = 0;
            while i < count
                invariant
                    i <= count,
                    count <= ranked@.len(),
                    count == each,
                    ranked@ == with_distances(v@, cents, ranking(v@, cents)),
                    to[id as int] == targets(v@, cents, first_n(ranking(v@, cents), spill as nat)),
                    to[id as int].len() == count,
                    target@ =~= to[id as int].take(i as int),
                decreases count - i,
            {
                let (c, dsq) = ranked[i];
                target.push((c, dsq.sqrt()));
                i += 1;
            }
            proof {
                assert(to[id as int].take(count as int) =~= to[id as int]);
                assert(target@ == to[id as int]);
                lemma_ranking(v@, cents);
                assert(id * each + each <= n * each) by (nonlinear_arith)
                    requires
                        id + 1 <= n,
                ;
                assert((id + 1) * each == id * each + each) by (nonlinear_arith);
            }
            lists.post(id, target.as_slice());
            dup += count - 1;
            if count >= 2 {
                repeated += 1;
            }
            id += 1;
        }
        proof {
            assert forall|i: int| 0 <= i < to.len() implies targets_below(
                #[trigger] to[i],
                n_centroids as nat,
            ) by {
                lemma_ranking(table[i], cents);
            }
            lemma_filled(n_centroids as nat, to, n as nat);
        }
        lists.dup_count = repeated;
        IvfSpillTopK { centroids, lists, vectors, spill, duplicates: dup }
    }
}

impl<'v, R: Scalar> IvfVariant<R> for IvfSpillTopK<'v, R> {
    open spec fn ready(&self) -> bool {
        &&& self.lists.wf()
        &&& self.centroids.all().len() <= self.lists.lists@.len()
        &&& postings_below(rows(self.lists.lists@), self.vectors@.len())
    }

    open spec fn centres(&self) -> Centroids<R> {
        self.centroids
    }

    open spec fn postings(&self) -> PostingLists<R> {
        self.lists
    }

    open spec fn corpus(&self) -> Seq<Seq<R>> {
        rows(self.vectors@)
    }

    open spec fn spilled(&self) -> nat {
        self.duplicates as nat
    }

    open spec fn label(&self) -> Seq<char> {
        "IVF-SpillTopK"@
    }

    fn name(&self) -> (r: &str) {
        "IVF-SpillTopK"
    }

    fn search(&self, query: &[R], k: usize, n_probe: usize) -> (r: Vec<Hit<R>>) {
        probe_and_scan(query, k, n_probe, &self.centroids, &self.lists, self.vectors)
    }

    fn search_approx(&self, query: &[R], k: usize, n_probe: usize) -> (r: Vec<Hit<R>>) {
        probe_and_scan_approx(query, k, n_probe, &self.centroids, &self.lists)
    }

    fn memory_bytes(&self) -> (r: usize) {
        centroid_bytes(&self.centroids) + posting_bytes(&self.lists)
    }

    fn spill_overhead(&self) -> (r: usize) {
        self.duplicates
    }
}

} // verus!
