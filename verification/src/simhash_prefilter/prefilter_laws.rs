//! The prefilter keeps the nearest sketches, and a search the nearest vectors.

use vstd::prelude::*;

use crate::linalg::sq_l2_of;
use crate::ranking_laws::{least_keys, lemma_least_keys, numbered};
use crate::scalar::Scalar;
use crate::simhash_prefilter::index::{
    by_hamming, candidates, exact_hits, listed, measured, prefiltered_hits,
};
use crate::simhash_prefilter::sketch::differing;
use crate::sorting::{lemma_top_k, lemma_top_k_smallest, top_k};
use crate::spaces::payloads;

verus! {

/// The positions below `n` at which two sequences of bits differ.
pub open spec fn differences(a: Seq<bool>, b: Seq<bool>, n: nat) -> Set<int> {
    Set::new(|i: int| 0 <= i < n && a[i] != b[i])
}

/// The Hamming distance counts the positions at which bits differ.
pub proof fn lemma_differences(a: Seq<bool>, b: Seq<bool>, n: nat)
    ensures
        differences(a, b, n).finite(),
        differing(a, b, n) == differences(a, b, n).len(),
    decreases n,
{
    let now = differences(a, b, n);
    if n == 0 {
        assert(now =~= Set::empty());
    } else {
        lemma_differences(a, b, (n - 1) as nat);
        let rest = differences(a, b, (n - 1) as nat);
        if a[n - 1] != b[n - 1] {
            assert(now =~= rest.insert(n - 1));
        } else {
            assert(now =~= rest);
        }
    }
}

/// The candidates are the vectors whose sketches differ from that of the query at the
/// fewest positions, the fewest first.
pub proof fn lemma_candidates(marks: Seq<Seq<bool>>, q: Seq<bool>, m: nat)
    requires
        marks.len() <= usize::MAX,
        q.len() <= u64::MAX,
    ensures
        least_keys(
            Seq::new(candidates(marks, q, m).len(), |i: int| candidates(marks, q, m)[i] as int),
            |i: int| differences(marks[i], q, q.len()).len() as u64,
            marks.len(),
            m,
        ),
{
    let all = by_hamming(marks, q);
    let id = |x: usize| x as int;
    let keys = |i: int| differences(marks[i], q, q.len()).len() as u64;
    assert forall|i: int| 0 <= i < all.len() implies (#[trigger] all[i]).0 == keys(i) by {
        lemma_differences(marks[i], q, q.len());
    }
    assert(numbered(all, id));
    lemma_least_keys(all, id, keys, m);
    let found = payloads(top_k(all, m));
    assert(Seq::new(candidates(marks, q, m).len(), |i: int| candidates(marks, q, m)[i] as int)
        =~= Seq::new(found.len(), |i: int| id(found[i])));
}

/// An exact search finds the vectors nearest to a query, the nearest one first, and
/// reports their distances.
pub proof fn lemma_exact_hits<R: Scalar>(vectors: Seq<Seq<R>>, q: Seq<R>, k: nat)
    requires
        vectors.len() <= usize::MAX,
    ensures
        ({
            let found = exact_hits(vectors, q, k);
            &&& least_keys(
                Seq::new(found.len(), |i: int| found[i].0 as int),
                |i: int| sq_l2_of(q, vectors[i]).key_of(),
                vectors.len(),
                k,
            )
            &&& forall|i: int|
                0 <= i < found.len() ==> (#[trigger] found[i]).1 == sq_l2_of(
                    q,
                    vectors[found[i].0 as int],
                )
        }),
{
    let all = measured(vectors, q);
    let id = |x: (usize, R)| x.0 as int;
    let keys = |i: int| sq_l2_of(q, vectors[i]).key_of();
    assert(numbered(all, id));
    lemma_least_keys(all, id, keys, k);
    let found = exact_hits(vectors, q, k);
    assert(Seq::new(found.len(), |i: int| found[i].0 as int) =~= Seq::new(
        found.len(),
        |i: int| id(found[i]),
    ));
    assert forall|i: int| 0 <= i < found.len() implies (#[trigger] found[i]).1 == sq_l2_of(
        q,
        vectors[found[i].0 as int],
    ) by {
        assert(found[i] == all[id(found[i])].1);
    }
}

/// No candidate that a search leaves out is nearer than a vector that it reports.
pub proof fn lemma_prefiltered_nearest<R: Scalar>(
    vectors: Seq<Seq<R>>,
    marks: Seq<Seq<bool>>,
    q: Seq<R>,
    bits: Seq<bool>,
    k: nat,
    m: nat,
    x: int,
)
    requires
        0 <= x < vectors.len() <= usize::MAX,
        candidates(marks, bits, m).contains(x as usize),
    ensures
        ({
            let found = prefiltered_hits(vectors, marks, q, bits, k, m);
            let own = (x as usize, sq_l2_of(q, vectors[x]));
            found.contains(own) || forall|i: int|
                0 <= i < found.len() ==> (#[trigger] found[i]).1.key_of() <= own.1.key_of()
        }),
{
    let test = listed::<R>(candidates(marks, bits, m));
    let all = measured(vectors, q);
    let some = all.filter(test);
    let top = top_k(some, k);
    let found = prefiltered_hits(vectors, marks, q, bits, k, m);
    let own = (x as usize, sq_l2_of(q, vectors[x]));
    let item = all[x];
    all.lemma_filter_contains(test, x);
    lemma_top_k(some, k);
    if top.contains(item) {
        let j = choose|j: int| 0 <= j < top.len() && top[j] == item;
        assert(found[j] == own);
    } else {
        assert forall|i: int| 0 <= i < found.len() implies (#[trigger] found[i]).1.key_of()
            <= own.1.key_of() by {
            lemma_top_k_smallest(some, k, i, item);
            assert(some.contains(top[i]));
            let p = choose|p: int| 0 <= p < some.len() && some[p] == top[i];
            all.lemma_filter_contains_rev(test, some[p]);
            let y = choose|y: int| 0 <= y < all.len() && all[y] == some[p];
            assert(found[i] == all[y].1);
        }
    }
}

} // verus!
