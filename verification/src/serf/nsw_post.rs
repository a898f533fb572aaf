//! One graph over all vectors, whose results are filtered by key.

use std::sync::Arc;

use vstd::prelude::*;

use crate::beam::listed_below;
use crate::bytes::{cells, clamped, held, rooms_fit};
use crate::scalar::Scalar;
use crate::serf::data::sq_l2_of;
use crate::serf::nsw::{lemma_nsw_hits, nsw_hits, Nsw, NswParams};
use crate::serf::range::{Range, RangeSearch};
use crate::sorting::first_n;
use crate::table::rows;

verus! {

/// The numbers below `n`.
pub open spec fn numbers_below(n: nat) -> Seq<u32> {
    Seq::new(n, |i: int| i as u32)
}

/// Whether the key of a vector lies in the range.
pub open spec fn key_holds<R: Scalar>(keys: Seq<R>, range: Range<R>) -> spec_fn((usize, R)) -> bool {
    |x: (usize, R)| range.holds(keys[x.0 as int])
}

/// The first `k` of the vectors found whose key lies in the range.
pub open spec fn kept_hits<R: Scalar>(
    keys: Seq<R>,
    range: Range<R>,
    pulled: Seq<(usize, R)>,
    k: nat,
) -> Seq<(usize, R)> {
    first_n(pulled.filter(key_holds(keys, range)), k)
}

/// A graph over all vectors, with their keys.
pub struct NswPost<R> {
    pub keys: Vec<R>,
    pub graph: Nsw<R>,
    /// How many times as many results are searched for as are asked for.
    pub overscan: usize,
}

impl<R: Scalar> NswPost<R> {
    /// Builds the graph.
    pub fn build(
        vectors: Arc<Vec<Vec<R>>>,
        keys: Vec<R>,
        params: NswParams,
        overscan: usize,
    ) -> (r: Self)
        requires
            vectors@.len() == keys@.len(),
            vectors@.len() <= u32::MAX,
        ensures
            r.keys == keys,
            r.overscan == overscan,
            r.graph.valid(),
            r.graph.all() == rows(vectors@),
            r.graph.numbers() == numbers_below(vectors@.len()),
            r.graph.settings() == params,
            forall|k: nat| k * overscan <= usize::MAX ==> #[trigger] r.ready(k),
    {
        let n: usize = vectors.len();
        let mut ids: Vec<u32> = Vec::new();
        let mut i: usize = 0;
        while i < n
            invariant
                i <= n,
                n <= u32::MAX,
                ids@ =~= numbers_below(i as nat),
            decreases n - i,
        {
            ids.push(i as u32);
            i += 1;
        }
        let graph = Nsw::build(vectors, ids, params);
        NswPost { keys, graph, overscan }
    }

    /// The bytes that the graph's lists hold, or the greatest number where these
    /// do not fit.
    pub fn graph_bytes(&self) -> (r: usize)
        ensures
            r >= clamped(4 * cells(self.graph.lists()) + 24 * self.graph.lists().len()),
            exists|rooms: Seq<usize>| #[trigger]
                rooms_fit(self.graph.lists(), rooms) && r == clamped(held(rooms, 24)),
    {
        self.graph.adj_bytes()
    }
}

impl<R: Scalar> RangeSearch<R> for NswPost<R> {
    open spec fn ready(&self, k: nat) -> bool {
        &&& self.graph.valid()
        &&& listed_below(self.graph.numbers(), self.keys@.len())
        &&& k * self.overscan <= usize::MAX
    }

    open spec fn answer(&self, q: Seq<R>, range: Range<R>, k: nat) -> Seq<(usize, R)> {
        kept_hits(
            self.keys@,
            range,
            nsw_hits(
                self.graph.all(),
                self.graph.numbers(),
                self.graph.settings(),
                q,
                (k * self.overscan) as usize,
            ),
            k,
        )
    }

    open spec fn label(&self) -> Seq<char> {
        "nsw-postfilter"@
    }

    fn name(&self) -> (r: &'static str) {
        "nsw-postfilter"
    }

    fn search(&self, q: &[R], range: Range<R>, k: usize) -> (found: Vec<(usize, R)>) {
        let wide: usize = k * self.overscan;
        let pulled = self.graph.search(q, wide);
        proof {
            self.graph.lemma_valid();
            lemma_nsw_hits(
                self.graph.all(),
                self.graph.numbers(),
                self.graph.settings(),
                q@,
                wide,
            );
        }
        let n: usize = pulled.len();
        let ghost test = key_holds(self.keys@, range);
        let mut kept: Vec<(usize, R)> = Vec::new();
        let mut i: usize = 0;
        proof {
            reveal(Seq::filter);
            assert(pulled@.take(0).filter(test) =~= Seq::empty());
        }
        while i < n
            invariant
                i <= n,
                n == pulled@.len(),
                test == key_holds(self.keys@, range),
                listed_below(self.graph.numbers(), self.keys@.len()),
                forall|i: int|
                    0 <= i < pulled@.len() ==> (#[trigger] pulled@[i]).0 <= u32::MAX
                        && self.graph.numbers().contains(pulled@[i].0 as u32),
                kept@ == pulled@.take(i as int).filter(test),
            decreases n - i,
        {
            proof {
                reveal(Seq::filter);
                assert(pulled@.take(i + 1).drop_last() =~= pulled@.take(i as int));
                assert(pulled@.take(i + 1).last() == pulled@[i as int]);
                let ids = self.graph.numbers();
                assert(ids.contains(pulled@[i as int].0 as u32));
                let j = choose|j: int| 0 <= j < ids.len() && ids[j] == pulled@[i as int].0 as u32;
                assert(ids[j] < self.keys@.len());
            }
            if range.contains(self.keys[pulled[i].0]) {
                kept.push(pulled[i]);
            }
            i += 1;
        }
        assert(pulled@.take(n as int) =~= pulled@);
        let ghost all = kept@;
        if k < kept.len() {
            kept.truncate(k);
        }
        assert(kept@ =~= first_n(all, k as nat));
        kept
    }
}

/// A search finds vectors whose key lies in the range, each with its distance,
/// and `k` of them at most.
pub proof fn lemma_kept_hits<R: Scalar>(
    vectors: Seq<Seq<R>>,
    keys: Seq<R>,
    params: NswParams,
    q: Seq<R>,
    range: Range<R>,
    wide: usize,
    k: nat,
)
    requires
        vectors.len() <= u32::MAX,
    ensures
        ({
            let pulled = nsw_hits(vectors, numbers_below(vectors.len()), params, q, wide);
            let found = kept_hits(keys, range, pulled, k);
            &&& found.len() <= k
            &&& forall|i: int|
                0 <= i < found.len() ==> {
                    let x = #[trigger] found[i];
                    &&& x.0 < vectors.len()
                    &&& range.holds(keys[x.0 as int])
                    &&& x.1 == sq_l2_of(q, vectors[x.0 as int])
                }
        }),
{
    let ids = numbers_below(vectors.len());
    let pulled = nsw_hits(vectors, ids, params, q, wide);
    let test = key_holds(keys, range);
    let all = pulled.filter(test);
    let found = kept_hits(keys, range, pulled, k);
    lemma_nsw_hits(vectors, ids, params, q, wide);
    assert forall|i: int| 0 <= i < found.len() implies {
        let x = #[trigger] found[i];
        &&& x.0 < vectors.len()
        &&& range.holds(keys[x.0 as int])
        &&& x.1 == sq_l2_of(q, vectors[x.0 as int])
    } by {
        assert(found[i] == all[i]);
        pulled.lemma_filter_pred(test, i);
        assert(all.contains(all[i]));
        pulled.lemma_filter_contains_rev(test, all[i]);
        let j = choose|j: int| 0 <= j < pulled.len() && pulled[j] == all[i];
        assert(ids.contains(pulled[j].0 as u32));
    }
}

} // verus!
