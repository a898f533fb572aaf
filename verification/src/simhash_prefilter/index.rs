//! A flat index that reranks the candidates with the nearest sketches.

use vstd::prelude::*;

use crate::bytes::{cells, count_cells};
use crate::linalg::{sq_l2, sq_l2_of};
use crate::overlap::{distinct, found_ids, hits, lemma_distinct, lemma_hits_monotone};
use crate::scalar::Scalar;
use crate::simhash_prefilter::error::PrefilterError;
use crate::simhash_prefilter::family::SketchFamily;
use crate::simhash_prefilter::sketch::{differing, lemma_differing, Sketch};
use crate::sorting::{
    first_n, lemma_stable_sort, lemma_stable_sort_contains, lemma_top_k, lemma_top_k_filter,
    select_top_k, top_k,
};
use crate::spaces::{payloads, take_payloads};
use crate::table::rows;

verus! {

/// The bits of sketches.
pub open spec fn all_bits<const W: usize>(sketches: Seq<Sketch<W>>) -> Seq<Seq<bool>> {
    Seq::new(sketches.len(), |i: int| sketches[i].bits())
}

/// The positions of sketches, keyed by their Hamming distance from `q`.
pub open spec fn by_hamming(marks: Seq<Seq<bool>>, q: Seq<bool>) -> Seq<(u64, usize)> {
    Seq::new(marks.len(), |i: int| (differing(marks[i], q, q.len()) as u64, i as usize))
}

/// The positions of the `m` sketches nearest to `q`; of two at the same distance
/// the earlier one is nearer.
pub open spec fn candidates(marks: Seq<Seq<bool>>, q: Seq<bool>, m: nat) -> Seq<usize> {
    payloads(top_k(by_hamming(marks, q), m))
}

/// Every vector's position and distance from `q`, keyed by that distance.
pub open spec fn measured<R: Scalar>(vectors: Seq<Seq<R>>, q: Seq<R>) -> Seq<(u64, (usize, R))> {
    Seq::new(
        vectors.len(),
        |i: int| (sq_l2_of(q, vectors[i]).key_of(), (i as usize, sq_l2_of(q, vectors[i]))),
    )
}

/// Whether an item's position is listed.
pub open spec fn listed<R>(ids: Seq<usize>) -> spec_fn((u64, (usize, R))) -> bool {
    |x: (u64, (usize, R))| ids.contains(x.1.0)
}

/// The `k` vectors nearest to `q`, the nearest first; of two at the same
/// distance the earlier one is nearer.
pub open spec fn exact_hits<R: Scalar>(vectors: Seq<Seq<R>>, q: Seq<R>, k: nat) -> Seq<(usize, R)> {
    payloads(top_k(measured(vectors, q), k))
}

/// The `k` vectors nearest to `q` of those whose sketches are among the `m`
/// nearest to the sketch of `q`.
pub open spec fn prefiltered_hits<R: Scalar>(
    vectors: Seq<Seq<R>>,
    marks: Seq<Seq<bool>>,
    q: Seq<R>,
    bits: Seq<bool>,
    k: nat,
    m: nat,
) -> Seq<(usize, R)> {
    payloads(top_k(measured(vectors, q).filter(listed(candidates(marks, bits, m))), k))
}

/// The lesser of two numbers.
pub open spec fn least_of(a: nat, b: nat) -> nat {
    if a <= b {
        a
    } else {
        b
    }
}

/// A flat index with a sketch of every vector.
pub struct FlatPrefilterIndex<R: Scalar, F: SketchFamily<R, W>, const W: usize> {
    family: F,
    vectors: Vec<Vec<R>>,
    sketches: Vec<Sketch<W>>,
}

impl<R: Scalar, F: SketchFamily<R, W>, const W: usize> FlatPrefilterIndex<R, F, W> {
    /// The family that makes the sketches.
    pub closed spec fn sketcher(&self) -> F {
        self.family
    }

    /// The vectors.
    pub closed spec fn all(&self) -> Seq<Seq<R>> {
        rows(self.vectors@)
    }

    /// The bits of the vectors' sketches.
    pub closed spec fn marks(&self) -> Seq<Seq<bool>> {
        all_bits(self.sketches@)
    }

    #[verifier::type_invariant]
    closed spec fn inv(self) -> bool {
        self.vectors@.len() == self.sketches@.len()
    }

    /// Builds an index: a sketch is made of every vector.
    pub fn build(family: F, vectors: Vec<Vec<R>>) -> (r: Result<Self, PrefilterError>)
        ensures
            match r {
                Ok(ix) => {
                    &&& ix.sketcher() == family
                    &&& ix.all() == rows(vectors@)
                    &&& ix.marks().len() == vectors@.len()
                    &&& forall|i: int|
                        0 <= i < vectors@.len() ==> family.sketch_of(#[trigger] vectors@[i]@) == Ok::<
                            Seq<bool>,
                            PrefilterError,
                        >(ix.marks()[i])
                },
                Err(e) => exists|i: int|
                    {
                        &&& 0 <= i < vectors@.len()
                        &&& family.sketch_of(#[trigger] vectors@[i]@) == Err::<
                            Seq<bool>,
                            PrefilterError,
                        >(e)
                        &&& forall|j: int|
                            0 <= j < i ==> family.sketch_of(#[trigger] vectors@[j]@) is Ok
                    },
            },
    {
        let n: usize = vectors.len();
        let mut sketches: Vec<Sketch<W>> = Vec::new();
        let mut i: usize = 0;
        while i < n
            invariant
                i <= n,
                n == vectors@.len(),
                sketches@.len() == i,
                forall|j: int|
                    0 <= j < i ==> family.sketch_of(#[trigger] vectors@[j]@) == Ok::<
                        Seq<bool>,
                        PrefilterError,
                    >(sketches@[j].bits()),
            decreases n - i,
        {
            match family.sketch(vectors[i].as_slice()) {
                Ok(s) => {
                    sketches.push(s);
                },
                Err(e) => {
                    assert(family.sketch_of(vectors@[i as int]@) == Err::<
                        Seq<bool>,
                        PrefilterError,
                    >(e));
                    return Err(e);
                },
            }
            i += 1;
        }
        Ok(FlatPrefilterIndex { family, vectors, sketches })
    }

    /// The number of vectors.
    pub fn len(&self) -> (r: usize)
        ensures
            r == self.all().len(),
            r == self.marks().len(),
    {
        proof {
            use_type_invariant(self);
        }
        self.vectors.len()
    }

    /// Whether there are no vectors.
    pub fn is_empty(&self) -> (r: bool)
        ensures
            r == (self.all().len() == 0),
    {
        self.vectors.len() == 0
    }

    /// Marks the positions of the `m` sketches nearest to `qs`.
    fn mark_candidates(&self, qs: &Sketch<W>, m: usize) -> (keep: Vec<bool>)
        requires
            W * 64 <= u32::MAX,
        ensures
            keep@.len() == self.marks().len(),
            forall|i: int|
                0 <= i < keep@.len() ==> #[trigger] keep@[i] == candidates(
                    self.marks(),
                    qs.bits(),
                    m as nat,
                ).contains(i as usize),
    {
        let n: usize = self.sketches.len();
        let ghost want = by_hamming(self.marks(), qs.bits());
        let mut scored: Vec<(u64, usize)> = Vec::new();
        let mut keep: Vec<bool> = Vec::new();
        let mut i: usize = 0;
        while i < n
            invariant
                i <= n,
                n == self.sketches@.len(),
                W * 64 <= u32::MAX,
                want == by_hamming(self.marks(), qs.bits()),
                scored@ =~= want.take(i as int),
                keep@ =~= Seq::new(i as nat, |j: int| false),
            decreases n - i,
        {
            proof {
                lemma_differing(self.sketches@[i as int].bits(), qs.bits(), 0, W as nat * 64);
            }
            let h: u32 = self.sketches[i].hamming(qs);
            scored.push((h as u64, i));
            keep.push(false);
            i += 1;
        }
        assert(want.take(n as int) =~= want);
        let top = select_top_k(scored.as_slice(), m);
        let ids = take_payloads(top.as_slice());
        let count: usize = ids.len();
        proof {
            lemma_top_k(want, m as nat);
            assert forall|j: int| 0 <= j < ids@.len() implies (#[trigger] ids@[j]) < n by {
                assert(want.contains(top@[j]));
            }
            assert(ids@.take(0) =~= Seq::empty());
        }
        let mut c: usize = 0;
        while c < count
            invariant
                c <= count,
                count == ids@.len(),
                keep@.len() == n,
                forall|j: int| 0 <= j < ids@.len() ==> (#[trigger] ids@[j]) < n,
                forall|i: int|
                    0 <= i < n ==> #[trigger] keep@[i] == ids@.take(c as int).contains(i as usize),
            decreases count - c,
        {
            let id: usize = ids[c];
            let ghost before = keep@;
            keep.set(id, true);
            proof {
                let now = ids@.take(c + 1);
                assert(now =~= ids@.take(c as int).push(id));
                assert forall|i: int| 0 <= i < n implies #[trigger] keep@[i] == now.contains(
                    i as usize,
                ) by {
                    assert(now[c as int] == id);
                    if before[i] {
                        let j = choose|j: int|
                            0 <= j < c && ids@.take(c as int)[j] == i as usize;
                        assert(now[j] == i as usize);
                    }
                    if now.contains(i as usize) && i != id {
                        let j = choose|j: int| 0 <= j < now.len() && now[j] == i as usize;
                        assert(ids@.take(c as int)[j] == i as usize);
                    }
                }
            }
            c += 1;
        }
        assert(ids@.take(count as int) =~= ids@);
        keep
    }

    /// Finds the `k` nearest of the candidates: of `candidate_mult` times as many
    /// vectors, those with the nearest sketches. It is an error to ask for more
    /// candidates than there are vectors.
    pub fn search_prefilter(&self, query: &[R], k: usize, candidate_mult: usize) -> (r: Result<
        Vec<(usize, R)>,
        PrefilterError,
    >)
        requires
            k * candidate_mult <= usize::MAX,
            W * 64 <= u32::MAX,
        ensures
            ({
                let m = k as nat * candidate_mult as nat;
                let n = self.all().len();
                let sketched = self.sketcher().sketch_of(query@);
                if m > n {
                    r == Err::<Vec<(usize, R)>, PrefilterError>(
                        PrefilterError::NotEnoughCandidates { m: m as usize, n: n as usize },
                    )
                } else if m == 0 {
                    r is Ok && r->Ok_0@.len() == 0
                } else {
                    match sketched {
                        Err(e) => r == Err::<Vec<(usize, R)>, PrefilterError>(e),
                        Ok(bits) => r is Ok && r->Ok_0@ == prefiltered_hits(
                            self.all(),
                            self.marks(),
                            query@,
                            bits,
                            k as nat,
                            m,
                        ),
                    }
                }
            }),
    {
        proof {
            use_type_invariant(self);
        }
        let n: usize = self.vectors.len();
        let m: usize = k * candidate_mult;
        if m > n {
            return Err(PrefilterError::NotEnoughCandidates { m, n });
        }
        if m == 0 {
            return Ok(Vec::new());
        }
        let qs = match self.family.sketch(query) {
            Ok(s) => s,
            Err(e) => {
                return Err(e);
            },
        };
        let keep = self.mark_candidates(&qs, m);
        let ghost all = measured(self.all(), query@);
        let ghost test = listed::<R>(candidates(self.marks(), qs.bits(), m as nat));
        let mut rerank: Vec<(u64, (usize, R))> = Vec::new();
        let mut i: usize = 0;
        proof {
            reveal(Seq::filter);
            assert(all.take(0).filter(test) =~= Seq::empty());
        }
        while i < n
            invariant
                i <= n,
                n == self.vectors@.len(),
                keep@.len() == n,
                all == measured(self.all(), query@),
                test == listed::<R>(candidates(self.marks(), qs.bits(), m as nat)),
                forall|i: int|
                    0 <= i < n ==> #[trigger] keep@[i] == candidates(
                        self.marks(),
                        qs.bits(),
                        m as nat,
                    ).contains(i as usize),
                rerank@ == all.take(i as int).filter(test),
            decreases n - i,
        {
            proof {
                reveal(Seq::filter);
                assert(all.take(i + 1).drop_last() =~= all.take(i as int));
                assert(all.take(i + 1).last() == all[i as int]);
            }
            if keep[i] {
                let d: R = sq_l2(query, self.vectors[i].as_slice());
                rerank.push((d.key(), (i, d)));
            }
            i += 1;
        }
        assert(all.take(n as int) =~= all);
        let top = select_top_k(rerank.as_slice(), k);
        Ok(take_payloads(top.as_slice()))
    }

    /// Finds the `k` nearest vectors.
    pub fn search_exact(&self, query: &[R], k: usize) -> (found: Vec<(usize, R)>)
        ensures
            found@ == exact_hits(self.all(), query@, k as nat),
    {
        let n: usize = self.vectors.len();
        let ghost want = measured(self.all(), query@);
        let mut all: Vec<(u64, (usize, R))> = Vec::new();
        let mut i: usize = 0;
        while i < n
            invariant
                i <= n,
                n == self.vectors@.len(),
                want == measured(self.all(), query@),
                all@ =~= want.take(i as int),
            decreases n - i,
        {
            let d: R = sq_l2(query, self.vectors[i].as_slice());
            all.push((d.key(), (i, d)));
            i += 1;
        }
        assert(want.take(n as int) =~= want);
        let top = select_top_k(all.as_slice(), k);
        take_payloads(top.as_slice())
    }

    /// The number of bytes of the sketches.
    pub fn sketch_footprint_bytes(&self) -> (r: usize)
        requires
            self.all().len() * (W * 8) <= usize::MAX,
            W * 8 <= usize::MAX,
        ensures
            r == self.all().len() * (W * 8),
    {
        proof {
            use_type_invariant(self);
        }
        self.sketches.len() * F::sketch_bytes()
    }

    /// The number of bytes of the vectors, with four bytes for a component.
    pub fn raw_footprint_bytes(&self) -> (r: usize)
        requires
            cells(self.all()) * 4 <= usize::MAX,
        ensures
            r == cells(self.all()) * 4,
    {
        count_cells(self.vectors.as_slice()) * 4
    }
}

/// Filtering keeps the order of positions.
proof fn lemma_kept_order<R: Scalar>(
    all: Seq<(u64, (usize, R))>,
    keep: spec_fn((u64, (usize, R))) -> bool,
)
    requires
        forall|i: int| 0 <= i < all.len() ==> (#[trigger] all[i]).1.0 == i,
    ensures
        forall|i: int|
            0 <= i < all.filter(keep).len() ==> (#[trigger] all.filter(keep)[i]).1.0 < all.len()
                && all[all.filter(keep)[i].1.0 as int] == all.filter(keep)[i] && keep(
                all.filter(keep)[i],
            ),
        forall|i: int, j: int|
            0 <= i < j < all.filter(keep).len() ==> (#[trigger] all.filter(keep)[i]).1.0 < (
            #[trigger] all.filter(keep)[j]).1.0,
    decreases all.len(),
{
    reveal(Seq::filter);
    if all.len() > 0 {
        let t = all.drop_last();
        assert forall|i: int| 0 <= i < t.len() implies (#[trigger] t[i]).1.0 == i by {
            assert(t[i] == all[i]);
        }
        lemma_kept_order(t, keep);
        let f = t.filter(keep);
        let g = all.filter(keep);
        assert forall|i: int| 0 <= i < g.len() implies (#[trigger] g[i]).1.0 < all.len()
            && all[g[i].1.0 as int] == g[i] && keep(g[i]) by {
            if i < f.len() {
                assert(g[i] == f[i]);
                assert(t[f[i].1.0 as int] == all[f[i].1.0 as int]);
            }
        }
        assert forall|i: int, j: int| 0 <= i < j < g.len() implies (#[trigger] g[i]).1.0 < (
        #[trigger] g[j]).1.0 by {
            assert(g[i] == f[i]);
            if j < f.len() {
                assert(g[j] == f[j]);
            }
        }
    }
}

/// What a search with or without candidates selects from.
proof fn lemma_selected<R: Scalar>(
    vectors: Seq<Seq<R>>,
    q: Seq<R>,
    keep: spec_fn((u64, (usize, R))) -> bool,
    k: nat,
)
    requires
        vectors.len() <= usize::MAX,
    ensures
        forall|i: int|
            0 <= i < top_k(measured(vectors, q).filter(keep), k).len() ==> {
                let x = #[trigger] top_k(measured(vectors, q).filter(keep), k)[i];
                &&& x.1.0 < vectors.len()
                &&& x == measured(vectors, q)[x.1.0 as int]
                &&& keep(x)
            },
        found_ids(payloads(top_k(measured(vectors, q).filter(keep), k))).no_duplicates(),
{
    let all = measured(vectors, q);
    let some = all.filter(keep);
    let top = top_k(some, k);
    lemma_kept_order(all, keep);
    lemma_top_k(some, k);
    assert forall|i: int| 0 <= i < top.len() implies {
        let x = #[trigger] top[i];
        &&& x.1.0 < vectors.len()
        &&& x == all[x.1.0 as int]
        &&& keep(x)
    } by {
        assert(some.contains(top[i]));
        let j = choose|j: int| 0 <= j < some.len() && some[j] == top[i];
        assert(some[j] == top[i]);
    }
    assert(some.no_duplicates()) by {
        assert forall|i: int, j: int| 0 <= i < some.len() && 0 <= j < some.len() && i != j implies
            some[i] != some[j] by {
            if i < j {
                assert(some[i].1.0 < some[j].1.0);
            } else {
                assert(some[j].1.0 < some[i].1.0);
            }
        }
    }
    lemma_stable_sort(some);
    let sorted = crate::sorting::stable_sort(some);
    some.lemma_multiset_has_no_duplicates();
    sorted.lemma_multiset_has_no_duplicates_conv();
    let ids = found_ids(payloads(top));
    assert forall|i: int, j: int| 0 <= i < ids.len() && 0 <= j < ids.len() && i != j implies ids[i]
        != ids[j] by {
        assert(top[i] == sorted[i] && top[j] == sorted[j]);
        assert(sorted[i] != sorted[j]);
        assert(top[i] == all[top[i].1.0 as int] && top[j] == all[top[j].1.0 as int]);
    }
}

/// As many vectors are candidates as there are candidates.
proof fn lemma_kept_count<R: Scalar>(
    vectors: Seq<Seq<R>>,
    marks: Seq<Seq<bool>>,
    q: Seq<R>,
    bits: Seq<bool>,
    m: nat,
)
    requires
        vectors.len() == marks.len(),
        vectors.len() <= usize::MAX,
    ensures
        measured(vectors, q).filter(listed(candidates(marks, bits, m))).len() == if m
            <= vectors.len() {
            m
        } else {
            vectors.len()
        },
{
    let c = candidates(marks, bits, m);
    let all = measured(vectors, q);
    let some = all.filter(listed(c));
    let a = Seq::new(some.len(), |i: int| some[i].1.0);
    let keyed = by_hamming(marks, bits);
    let sorted = crate::sorting::stable_sort(keyed);
    lemma_kept_order(all, listed(c));
    lemma_top_k(keyed, m);
    lemma_stable_sort(keyed);
    assert(keyed.no_duplicates()) by {
        assert forall|i: int, j: int|
            0 <= i < keyed.len() && 0 <= j < keyed.len() && i != j implies keyed[i] != keyed[j] by {
            assert(keyed[i].1 == i && keyed[j].1 == j);
        }
    }
    keyed.lemma_multiset_has_no_duplicates();
    sorted.lemma_multiset_has_no_duplicates_conv();
    assert forall|i: int| 0 <= i < c.len() implies #[trigger] c[i] < keyed.len() && sorted[i]
        == keyed[c[i] as int] by {
        assert(keyed.contains(top_k(keyed, m)[i]));
    }
    assert(c.no_duplicates()) by {
        assert forall|i: int, j: int| 0 <= i < c.len() && 0 <= j < c.len() && i != j implies c[i]
            != c[j] by {
            assert(sorted[i] != sorted[j]);
            assert(sorted[i] == keyed[c[i] as int] && sorted[j] == keyed[c[j] as int]);
        }
    }
    assert(a.no_duplicates()) by {
        assert forall|i: int, j: int| 0 <= i < a.len() && 0 <= j < a.len() && i != j implies a[i]
            != a[j] by {
            if i < j {
                assert(some[i].1.0 < some[j].1.0);
            } else {
                assert(some[j].1.0 < some[i].1.0);
            }
        }
    }
    assert forall|x: usize| a.contains(x) <==> c.contains(x) by {
        if a.contains(x) {
            let i = choose|i: int| 0 <= i < a.len() && a[i] == x;
            assert(listed::<R>(c)(some[i]));
        }
        if c.contains(x) {
            let i = choose|i: int| 0 <= i < c.len() && c[i] == x;
            assert(c[i] < keyed.len());
            all.lemma_filter_contains(listed(c), x as int);
            let j = choose|j: int| 0 <= j < some.len() && some[j] == all[x as int];
            assert(a[j] == x);
        }
    }
    assert(a.to_set() =~= c.to_set());
    a.unique_seq_to_set();
    c.unique_seq_to_set();
}

/// A search reports as many results as asked for, or all candidates where there
/// are fewer; candidates only, each once, with its distance; and the distances
/// do not decrease.
pub proof fn lemma_prefiltered<R: Scalar>(
    vectors: Seq<Seq<R>>,
    marks: Seq<Seq<bool>>,
    q: Seq<R>,
    bits: Seq<bool>,
    k: nat,
    m: nat,
)
    requires
        vectors.len() == marks.len(),
        vectors.len() <= usize::MAX,
    ensures
        ({
            let found = prefiltered_hits(vectors, marks, q, bits, k, m);
            &&& found.len() == least_of(k, least_of(m, vectors.len()))
            &&& forall|i: int|
                0 <= i < found.len() ==> {
                    let x = #[trigger] found[i];
                    &&& x.0 < vectors.len()
                    &&& candidates(marks, bits, m).contains(x.0)
                    &&& x.1 == sq_l2_of(q, vectors[x.0 as int])
                }
            &&& forall|i: int, j: int|
                0 <= i <= j < found.len() ==> (#[trigger] found[i]).1.key_of() <= (
                #[trigger] found[j]).1.key_of()
            &&& found_ids(found).no_duplicates()
        }),
{
    let test = listed::<R>(candidates(marks, bits, m));
    let some = measured(vectors, q).filter(test);
    let found = prefiltered_hits(vectors, marks, q, bits, k, m);
    lemma_selected(vectors, q, test, k);
    lemma_kept_count(vectors, marks, q, bits, m);
    lemma_top_k(some, k);
    let top = top_k(some, k);
    assert forall|i: int, j: int| 0 <= i <= j < found.len() implies (#[trigger] found[i]).1.key_of()
        <= (#[trigger] found[j]).1.key_of() by {
        assert(top[i].0 <= top[j].0);
    }
    assert forall|i: int| 0 <= i < found.len() implies {
        let x = #[trigger] found[i];
        &&& x.0 < vectors.len()
        &&& candidates(marks, bits, m).contains(x.0)
        &&& x.1 == sq_l2_of(q, vectors[x.0 as int])
    } by {
        assert(test(top[i]));
    }
}

/// Where every vector is a candidate, a search gives what exact search gives.
pub proof fn lemma_all_candidates<R: Scalar>(
    vectors: Seq<Seq<R>>,
    marks: Seq<Seq<bool>>,
    q: Seq<R>,
    bits: Seq<bool>,
    k: nat,
    m: nat,
)
    requires
        vectors.len() == marks.len(),
        vectors.len() <= usize::MAX,
        m >= vectors.len(),
    ensures
        prefiltered_hits(vectors, marks, q, bits, k, m) == exact_hits(vectors, q, k),
{
    let test = listed::<R>(candidates(marks, bits, m));
    let all = measured(vectors, q);
    assert forall|i: int| 0 <= i < all.len() implies test(#[trigger] all[i]) by {
        let keyed = by_hamming(marks, bits);
        lemma_stable_sort(keyed);
        assert(keyed.contains(keyed[i]));
        lemma_stable_sort_contains(keyed, keyed[i]);
        let sorted = crate::sorting::stable_sort(keyed);
        assert(first_n(sorted, m) =~= sorted);
        let j = choose|j: int| 0 <= j < sorted.len() && sorted[j] == keyed[i];
        assert(candidates(marks, bits, m)[j] == i as usize);
    }
    lemma_filter_all(all, test);
}

proof fn lemma_filter_all<A>(s: Seq<A>, test: spec_fn(A) -> bool)
    requires
        forall|i: int| 0 <= i < s.len() ==> test(#[trigger] s[i]),
    ensures
        s.filter(test) == s,
    decreases s.len(),
{
    reveal(Seq::filter);
    if s.len() > 0 {
        let t = s.drop_last();
        assert forall|i: int| 0 <= i < t.len() implies test(#[trigger] t[i]) by {
            assert(t[i] == s[i]);
        }
        lemma_filter_all(t, test);
        assert(test(s[s.len() - 1]));
        assert(s.filter(test) =~= s);
    }
}

/// With more candidates a search misses none of the exact results that it found
/// before, so recall does not fall.
pub proof fn lemma_recall_grows<R: Scalar>(
    vectors: Seq<Seq<R>>,
    marks: Seq<Seq<bool>>,
    q: Seq<R>,
    bits: Seq<bool>,
    k: nat,
    fewer: nat,
    more: nat,
)
    requires
        vectors.len() == marks.len(),
        vectors.len() <= usize::MAX,
        fewer <= more,
    ensures
        hits(
            distinct(found_ids(prefiltered_hits(vectors, marks, q, bits, k, fewer))),
            found_ids(exact_hits(vectors, q, k)),
        ) <= hits(
            distinct(found_ids(prefiltered_hits(vectors, marks, q, bits, k, more))),
            found_ids(exact_hits(vectors, q, k)),
        ),
{
    let a = candidates(marks, bits, fewer);
    let b = candidates(marks, bits, more);
    let all = measured(vectors, q);
    let top_a = top_k(all.filter(listed(a)), k);
    let top_b = top_k(all.filter(listed(b)), k);
    let top = top_k(all, k);
    let ids_a = found_ids(payloads(top_a));
    let ids_b = found_ids(payloads(top_b));
    let gold = found_ids(payloads(top));
    lemma_selected(vectors, q, listed(a), k);
    lemma_selected(vectors, q, listed(b), k);
    lemma_top_k(all, k);
    assert forall|i: int| 0 <= i < ids_a.len() && gold.contains(#[trigger] ids_a[i]) implies
        ids_b.contains(ids_a[i]) by {
        let id = ids_a[i];
        let g = choose|g: int| 0 <= g < gold.len() && gold[g] == id;
        let x = top[g];
        assert(all.contains(x));
        assert(x == all[id as int]);
        assert(top_a[i] == all[id as int]);
        assert(a.contains(id));
        let c = choose|c: int| 0 <= c < a.len() && a[c] == id;
        lemma_top_k(by_hamming(marks, bits), fewer);
        lemma_top_k(by_hamming(marks, bits), more);
        lemma_stable_sort(by_hamming(marks, bits));
        assert(b[c] == id);
        assert(b.contains(id));
        assert(top.contains(x));
        lemma_top_k_filter(all, listed(b), k, x);
        let j = choose|j: int| 0 <= j < top_b.len() && top_b[j] == x;
        assert(ids_b[j] == id);
    }
    lemma_distinct(ids_a);
    lemma_distinct(ids_b);
    lemma_hits_monotone(ids_a, ids_b, gold);
}

} // verus!
