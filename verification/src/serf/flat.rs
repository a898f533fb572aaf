//! The exact scan of vectors with keys.

use vstd::prelude::*;

use crate::scalar::Scalar;
use crate::serf::data::{sq_l2, sq_l2_of};
use crate::serf::range::{Range, RangeSearch};
use crate::sorting::{lemma_top_k, select_top_k, top_k};
use crate::spaces::{payloads, take_payloads};
use crate::table::rows;

verus! {

/// Those of the first `n` vectors whose key lies in the range, with their
/// distances, and keyed by these.
pub open spec fn swept<R: Scalar>(
    vectors: Seq<Seq<R>>,
    keys: Seq<R>,
    q: Seq<R>,
    range: Range<R>,
    n: nat,
) -> Seq<(u64, (usize, R))>
    decreases n,
{
    if n == 0 {
        Seq::empty()
    } else {
        let before = swept(vectors, keys, q, range, (n - 1) as nat);
        if range.holds(keys[n - 1]) {
            let d = sq_l2_of(q, vectors[n - 1]);
            before.push((d.key_of(), ((n - 1) as usize, d)))
        } else {
            before
        }
    }
}

/// The `k` vectors nearest to `q` of those whose key lies in the range.
pub open spec fn flat_hits<R: Scalar>(
    vectors: Seq<Seq<R>>,
    keys: Seq<R>,
    q: Seq<R>,
    range: Range<R>,
    k: nat,
) -> Seq<(usize, R)> {
    payloads(top_k(swept(vectors, keys, q, range, vectors.len()), k))
}

/// Vectors with keys.
pub struct Flat<R> {
    pub vectors: Vec<Vec<R>>,
    pub keys: Vec<R>,
}

impl<R: Scalar> Flat<R> {
    /// Vectors with their keys.
    pub fn new(vectors: Vec<Vec<R>>, keys: Vec<R>) -> (r: Self)
        requires
            vectors@.len() == keys@.len(),
        ensures
            r.vectors == vectors,
            r.keys == keys,
            forall|k: nat| r.ready(k),
    {
        Flat { vectors, keys }
    }
}

impl<R: Scalar> RangeSearch<R> for Flat<R> {
    open spec fn ready(&self, k: nat) -> bool {
        self.vectors@.len() == self.keys@.len()
    }

    open spec fn answer(&self, q: Seq<R>, range: Range<R>, k: nat) -> Seq<(usize, R)> {
        flat_hits(rows(self.vectors@), self.keys@, q, range, k)
    }

    open spec fn label(&self) -> Seq<char> {
        "flat-postfilter"@
    }

    fn name(&self) -> (r: &'static str) {
        "flat-postfilter"
    }

    fn search(&self, q: &[R], range: Range<R>, k: usize) -> (found: Vec<(usize, R)>) {
        let n: usize = self.vectors.len();
        let ghost vectors = rows(self.vectors@);
        let mut all: Vec<(u64, (usize, R))> = Vec::new();
        let mut i: usize = 0;
        while i < n
            invariant
                i <= n,
                n == self.vectors@.len(),
                n == self.keys@.len(),
                vectors == rows(self.vectors@),
                all@ == swept(vectors, self.keys@, q@, range, i as nat),
            decreases n - i,
        {
            if range.contains(self.keys[i]) {
                let d: R = sq_l2(q, self.vectors[i].as_slice());
                all.push((d.key(), (i, d)));
            }
            i += 1;
        }
        let top = select_top_k(all.as_slice(), k);
        take_payloads(top.as_slice())
    }
}

/// A vector whose key lies in the range, with its distance.
pub open spec fn in_reach<R: Scalar>(
    vectors: Seq<Seq<R>>,
    keys: Seq<R>,
    q: Seq<R>,
    range: Range<R>,
    x: (usize, R),
) -> bool {
    &&& x.0 < vectors.len()
    &&& range.holds(keys[x.0 as int])
    &&& x.1 == sq_l2_of(q, vectors[x.0 as int])
}

pub proof fn lemma_swept<R: Scalar>(
    vectors: Seq<Seq<R>>,
    keys: Seq<R>,
    q: Seq<R>,
    range: Range<R>,
    n: nat,
)
    requires
        n <= vectors.len() <= usize::MAX,
    ensures
        forall|j: int|
            0 <= j < swept(vectors, keys, q, range, n).len() ==> {
                let x = #[trigger] swept(vectors, keys, q, range, n)[j];
                &&& in_reach(vectors, keys, q, range, x.1)
                &&& x.0 == x.1.1.key_of()
            },
        forall|i: int|
            0 <= i < n && range.holds(keys[i]) ==> swept(vectors, keys, q, range, n).contains(
                (
                    sq_l2_of(q, #[trigger] vectors[i]).key_of(),
                    (i as usize, sq_l2_of(q, vectors[i])),
                ),
            ),
    decreases n,
{
    if n > 0 {
        let m = (n - 1) as nat;
        lemma_swept(vectors, keys, q, range, m);
        let a = swept(vectors, keys, q, range, m);
        let b = swept(vectors, keys, q, range, n);
        assert forall|j: int| 0 <= j < b.len() implies {
            let x = #[trigger] b[j];
            &&& in_reach(vectors, keys, q, range, x.1)
            &&& x.0 == x.1.1.key_of()
        } by {
            if j < a.len() {
                assert(b[j] == a[j]);
            }
        }
        assert forall|i: int| 0 <= i < n && range.holds(keys[i]) implies b.contains(
            (sq_l2_of(q, #[trigger] vectors[i]).key_of(), (i as usize, sq_l2_of(q, vectors[i]))),
        ) by {
            let x = (sq_l2_of(q, vectors[i]).key_of(), (i as usize, sq_l2_of(q, vectors[i])));
            if i < m {
                assert(a.contains(x));
                let j = choose|j: int| 0 <= j < a.len() && a[j] == x;
                assert(b[j] == x);
            } else {
                assert(b[b.len() - 1] == x);
            }
        }
    }
}

/// The scan is exact: it finds vectors in the range only, by ascending distance,
/// and no vector in the range that it leaves out is nearer than one that it
/// finds.
pub proof fn lemma_flat_hits<R: Scalar>(
    vectors: Seq<Seq<R>>,
    keys: Seq<R>,
    q: Seq<R>,
    range: Range<R>,
    k: nat,
)
    requires
        vectors.len() <= usize::MAX,
    ensures
        ({
            let found = flat_hits(vectors, keys, q, range, k);
            &&& found.len() <= k
            &&& forall|i: int|
                0 <= i < found.len() ==> in_reach(vectors, keys, q, range, #[trigger] found[i])
            &&& forall|i: int, j: int|
                0 <= i <= j < found.len() ==> (#[trigger] found[i]).1.key_of() <= (
                #[trigger] found[j]).1.key_of()
            &&& forall|i: int, j: int|
                0 <= i < vectors.len() && range.holds(keys[i]) && !found.contains(
                    (i as usize, sq_l2_of(q, vectors[i])),
                ) && 0 <= j < found.len() ==> (#[trigger] found[j]).1.key_of() <= sq_l2_of(
                    q,
                    #[trigger] vectors[i],
                ).key_of()
        }),
{
    let all = swept(vectors, keys, q, range, vectors.len());
    let top = top_k(all, k);
    let found = flat_hits(vectors, keys, q, range, k);
    lemma_swept(vectors, keys, q, range, vectors.len());
    lemma_top_k(all, k);
    assert forall|i: int| 0 <= i < top.len() implies {
        let x = #[trigger] top[i];
        &&& in_reach(vectors, keys, q, range, x.1)
        &&& x.0 == x.1.1.key_of()
    } by {
        assert(all.contains(top[i]));
        let j = choose|j: int| 0 <= j < all.len() && all[j] == top[i];
        assert(all[j] == top[i]);
    }
    assert forall|i: int| 0 <= i < found.len() implies in_reach(
        vectors,
        keys,
        q,
        range,
        #[trigger] found[i],
    ) by {
        assert(top[i].1 == found[i]);
    }
    assert forall|i: int, j: int| 0 <= i <= j < found.len() implies (
    #[trigger] found[i]).1.key_of() <= (#[trigger] found[j]).1.key_of() by {
        assert(top[i].0 <= top[j].0);
    }
    assert forall|i: int, j: int|
        0 <= i < vectors.len() && range.holds(keys[i]) && !found.contains(
            (i as usize, sq_l2_of(q, vectors[i])),
        ) && 0 <= j < found.len() implies (#[trigger] found[j]).1.key_of() <= sq_l2_of(
        q,
        #[trigger] vectors[i],
    ).key_of() by {
        let x = (sq_l2_of(q, vectors[i]).key_of(), (i as usize, sq_l2_of(q, vectors[i])));
        assert(all.contains(x));
        if top.contains(x) {
            let z = choose|z: int| 0 <= z < top.len() && top[z] == x;
            assert(found[z] == x.1);
        }
        crate::sorting::lemma_top_k_smallest(all, k, j, x);
        assert(top[j].1 == found[j]);
    }
}

} // verus!
