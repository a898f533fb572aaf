//! Flat index over codes.

use vstd::prelude::*;
use vstd::slice::slice_subrange;

use crate::flat::{
    cut, lemma_cut_ends, lemma_split_rectangular, rectangular, split, Cut, Flat, Rows,
};
use crate::linalg::{dot, dot_of, sq_l2, sq_l2_of};
use crate::rvq::{
    code_of, ip_table, l2_estimate, lemma_code_decodable, looked_up, norm_table, Quantizer, Rvq,
};
use crate::scalar::Scalar;
use crate::sorting::{
    ascending, insert_top, lemma_stable_sort, lemma_stable_sort_contains, lemma_top_k,
    lemma_top_k_push, lemma_top_k_smallest, select_top_k, stable_sort, top_k,
};
use crate::spaces::{payloads, take_payloads};

verus! {

/// An encoded vector found by a search, and its score.
#[derive(Debug, Clone, Copy)]
pub struct SearchResult<R> {
    pub id: u32,
    pub score: R,
}

/// The codes of all rows.
pub open spec fn codes_of<R: Scalar>(table: Seq<Seq<R>>, books: Seq<Seq<Seq<R>>>) -> Seq<Seq<u8>> {
    Seq::new(table.len(), |i: int| code_of(table[i], books))
}

/// Every code with its estimated inner product, the greatest one first.
pub open spec fn ip_scores<R: Scalar>(q: Seq<R>, rvq: Rvq<R>, codes: Seq<Seq<u8>>) -> Seq<
    (u64, SearchResult<R>),
> {
    Seq::new(
        codes.len(),
        |i: int|
            {
                let score = looked_up(
                    ip_table(q, rvq.books(), rvq.size()),
                    rvq.size(),
                    codes[i],
                    rvq.depth(),
                );
                ((u64::MAX - score.key_of()) as u64, SearchResult { id: i as u32, score })
            },
    )
}

/// Every code with its estimated distance, the least one first.
pub open spec fn l2_scores<R: Scalar>(q: Seq<R>, rvq: Rvq<R>, codes: Seq<Seq<u8>>) -> Seq<
    (u64, SearchResult<R>),
> {
    Seq::new(
        codes.len(),
        |i: int|
            {
                let score = l2_estimate(
                    dot_of(q, q),
                    ip_table(q, rvq.books(), rvq.size()),
                    norm_table(rvq.books(), rvq.size()),
                    rvq.size(),
                    codes[i],
                    rvq.depth(),
                );
                (score.key_of(), SearchResult { id: i as u32, score })
            },
    )
}

/// The codes with the `k` greatest estimated inner products.
pub open spec fn ip_found<R: Scalar>(
    q: Seq<R>,
    rvq: Rvq<R>,
    codes: Seq<Seq<u8>>,
    k: nat,
) -> Seq<SearchResult<R>> {
    payloads(top_k(ip_scores(q, rvq, codes), k))
}

/// The codes with the `k` least estimated distances.
pub open spec fn l2_found<R: Scalar>(
    q: Seq<R>,
    rvq: Rvq<R>,
    codes: Seq<Seq<u8>>,
    k: nat,
) -> Seq<SearchResult<R>> {
    payloads(top_k(l2_scores(q, rvq, codes), k))
}

/// Results with their exact distances to `q`.
pub open spec fn rescored<R: Scalar>(
    q: Seq<R>,
    full: Seq<Seq<R>>,
    coarse: Seq<SearchResult<R>>,
) -> Seq<(u64, SearchResult<R>)> {
    Seq::new(
        coarse.len(),
        |i: int|
            {
                let score = sq_l2_of(full[coarse[i].id as int], q);
                (score.key_of(), SearchResult { id: coarse[i].id, score })
            },
    )
}

/// Index that scans the codes of all vectors.
pub struct RvqIndex<R> {
    quantizer: Rvq<R>,
    /// The codes, one behind the other.
    codes: Vec<u8>,
    /// The squared norms of the centroids, stage by stage.
    norm_lut: Vec<R>,
    n: usize,
}

impl<R: Scalar> RvqIndex<R> {
    /// The quantizer.
    pub closed spec fn rvq(&self) -> Rvq<R> {
        self.quantizer
    }

    /// The codes.
    pub closed spec fn coded(&self) -> Seq<Seq<u8>> {
        cut(self.codes@, self.n as nat, self.quantizer.depth())
    }

    /// Every code can be decoded, and the norms are those of the centroids.
    pub closed spec fn wf(&self) -> bool {
        &&& self.quantizer.wf()
        &&& self.n <= 0x1_0000_0000
        &&& self.codes@.len() == self.n * self.quantizer.depth()
        &&& self.norm_lut@ == norm_table(self.quantizer.books(), self.quantizer.size())
        &&& forall|i: int| 0 <= i < self.n ==> self.quantizer.decodable(#[trigger] self.coded()[i])
    }

    /// Encodes the rows of `data`.
    pub fn build(quantizer: Rvq<R>, data: &[R]) -> (r: Self)
        requires
            quantizer.wf(),
            quantizer.width() > 0,
            data@.len() as int % quantizer.width() as int == 0,
            data@.len() / quantizer.width() <= 0x1_0000_0000,
        ensures
            r.wf(),
            r.rvq() == quantizer,
            r.coded() == codes_of(split(data@, quantizer.width()), quantizer.books()),
    {
        let d: usize = quantizer.dim();
        let stages: usize = quantizer.code_bytes();
        let table = Flat::new(data, d);
        let n: usize = table.count();
        let ghost all = table.all();
        let ghost wanted = codes_of(all, quantizer.books());
        proof {
            lemma_split_rectangular(data@, d as nat);
            quantizer.lemma_wf();
        }
        let mut list: Vec<Vec<u8>> = Vec::new();
        let mut i: usize = 0;
        while i < n
            invariant
                i <= n,
                n == all.len(),
                all == table.all(),
                rectangular(all, d as nat),
                quantizer.wf(),
                d == quantizer.width(),
                stages == quantizer.depth(),
                stages == quantizer.books().len(),
                wanted == codes_of(all, quantizer.books()),
                crate::table::rows(list@) =~= wanted.take(i as int),
            decreases n - i,
        {
            let x = table.row(i);
            assert(all[i as int].len() == d);
            let mut code: Vec<u8> = Vec::new();
            let mut j: usize = 0;
            while j < stages
                invariant
                    j <= stages,
                    code@.len() == j,
                decreases stages - j,
            {
                code.push(0);
                j += 1;
            }
            let _ = quantizer.encode(x, code.as_mut_slice());
            let ghost done = crate::table::rows(list@);
            assert(code@ == wanted[i as int]);
            list.push(code);
            assert(crate::table::rows(list@) =~= done.push(code@));
            i += 1;
        }
        assert(wanted.take(n as int) =~= wanted);
        proof {
            assert(rectangular(wanted, stages as nat));
            assert(list@.len() == crate::table::rows(list@).len());
        }
        let codes = crate::flat::lay_out(list.as_slice(), stages);
        let norm_lut = quantizer.l2_norm_lut();
        let r = RvqIndex { quantizer, codes, norm_lut, n };
        proof {
            assert(r.coded() == wanted);
            assert forall|i: int| 0 <= i < n implies quantizer.decodable(
                #[trigger] r.coded()[i],
            ) by {
                lemma_code_decodable(quantizer, all[i]);
                assert(r.coded()[i] == quantizer.code(all[i]));
            }
        }
        r
    }

    /// The number of vectors.
    pub fn len(&self) -> (r: usize)
        ensures
            r == self.coded().len(),
    {
        self.n
    }

    /// Whether there are no vectors.
    pub fn is_empty(&self) -> (r: bool)
        ensures
            r == (self.coded().len() == 0),
    {
        self.n == 0
    }

    /// The quantizer.
    pub fn quantizer(&self) -> (r: &Rvq<R>)
        ensures
            *r == self.rvq(),
    {
        &self.quantizer
    }

    /// The bytes of the codes.
    pub fn code_bytes(&self) -> (r: usize)
        requires
            self.wf(),
        ensures
            r == self.coded().len() * self.rvq().depth(),
    {
        self.codes.len()
    }

    fn code_at(&self, i: usize) -> (r: &[u8])
        requires
            self.wf(),
            i < self.coded().len(),
        ensures
            r@ == self.coded()[i as int],
            r@.len() == self.rvq().depth(),
            self.rvq().decodable(r@),
    {
        let stages: usize = self.quantizer.code_bytes();
        proof {
            lemma_cut_ends(self.n as nat, stages as nat, i as nat);
        }
        let total: usize = self.codes.len();
        assert(i * stages + stages <= total);
        let start: usize = i * stages;
        assert(self.quantizer.decodable(self.coded()[i as int]));
        slice_subrange(self.codes.as_slice(), start, start + stages)
    }

    /// The `k` vectors with the greatest estimated inner products, the greatest
    /// one first; of equal ones the earlier vector comes first.
    pub fn search_ip(&self, q: &[R], k: usize) -> (r: Vec<SearchResult<R>>)
        requires
            self.wf(),
            q@.len() == self.rvq().width(),
        ensures
            r@ == ip_found(q@, self.rvq(), self.coded(), k as nat),
    {
        let lut = self.quantizer.ip_lut(q);
        let ghost all = ip_scores(q@, self.rvq(), self.coded());
        let mut top: Vec<(u64, SearchResult<R>)> = Vec::new();
        let mut i: usize = 0;
        assert(top@ =~= top_k(all.take(0), k as nat));
        while i < self.n
            invariant
                i <= self.n,
                self.wf(),
                self.n == self.coded().len(),
                lut@ == ip_table(q@, self.rvq().books(), self.rvq().size()),
                lut@.len() == self.rvq().depth() * self.rvq().size(),
                all == ip_scores(q@, self.rvq(), self.coded()),
                top@ == top_k(all.take(i as int), k as nat),
                ascending(top@),
                top@.len() <= k,
            decreases self.n - i,
        {
            let s = self.quantizer.estimate_ip(lut.as_slice(), self.code_at(i));
            proof {
                assert(all.take(i + 1) =~= all.take(i as int).push(all[i as int]));
                lemma_top_k_push(all.take(i as int), all[i as int], k as nat);
            }
            insert_top(
                &mut top,
                (u64::MAX - s.key(), SearchResult { id: i as u32, score: s }),
                k,
            );
            i += 1;
        }
        assert(all.take(self.n as int) =~= all);
        take_payloads(top.as_slice())
    }

    /// The `k` vectors with the least estimated distances, the least one first; of
    /// equal ones the earlier vector comes first.
    pub fn search_l2(&self, q: &[R], k: usize) -> (r: Vec<SearchResult<R>>)
        requires
            self.wf(),
            q@.len() == self.rvq().width(),
        ensures
            r@ == l2_found(q@, self.rvq(), self.coded(), k as nat),
            forall|i: int| 0 <= i < r@.len() ==> (#[trigger] r@[i]).id < self.coded().len(),
    {
        proof {
            self.quantizer.lemma_wf();
        }
        let lut = self.quantizer.ip_lut(q);
        let q_sq = dot(q, q);
        let ghost all = l2_scores(q@, self.rvq(), self.coded());
        let mut top: Vec<(u64, SearchResult<R>)> = Vec::new();
        let mut i: usize = 0;
        assert(top@ =~= top_k(all.take(0), k as nat));
        while i < self.n
            invariant
                i <= self.n,
                self.wf(),
                self.n == self.coded().len(),
                lut@ == ip_table(q@, self.rvq().books(), self.rvq().size()),
                lut@.len() == self.rvq().depth() * self.rvq().size(),
                self.norm_lut@.len() == self.rvq().depth() * self.rvq().size(),
                q_sq == dot_of(q@, q@),
                all == l2_scores(q@, self.rvq(), self.coded()),
                top@ == top_k(all.take(i as int), k as nat),
                ascending(top@),
                top@.len() <= k,
            decreases self.n - i,
        {
            let s = self.quantizer.estimate_l2(
                q_sq,
                lut.as_slice(),
                self.norm_lut.as_slice(),
                self.code_at(i),
            );
            proof {
                assert(all.take(i + 1) =~= all.take(i as int).push(all[i as int]));
                lemma_top_k_push(all.take(i as int), all[i as int], k as nat);
            }
            insert_top(&mut top, (s.key(), SearchResult { id: i as u32, score: s }), k);
            i += 1;
        }
        assert(all.take(self.n as int) =~= all);
        proof {
            lemma_top_k(all, k as nat);
            assert forall|i: int| 0 <= i < top@.len() implies (#[trigger] top@[i]).1.id
                < self.n by {
                assert(all.contains(top@[i]));
            }
        }
        take_payloads(top.as_slice())
    }

    /// Searches for `rerank_pool` vectors by estimated distance, but at least for
    /// `k`, and returns the `k` of them that are nearest by exact distance to the
    /// vectors in `full`.
    pub fn search_l2_rerank(&self, q: &[R], k: usize, rerank_pool: usize, full: &[R]) -> (r: Vec<
        SearchResult<R>,
    >)
        requires
            self.wf(),
            q@.len() == self.rvq().width(),
            full@.len() == self.coded().len() * self.rvq().width(),
        ensures
            ({
                let pool = if rerank_pool >= k {
                    rerank_pool as nat
                } else {
                    k as nat
                };
                r@ == reranked(
                    q@,
                    self.rvq(),
                    self.coded(),
                    cut(full@, self.coded().len(), self.rvq().width()),
                    k as nat,
                    pool,
                )
            }),
    {
        let d: usize = self.quantizer.dim();
        let pool: usize = if rerank_pool >= k {
            rerank_pool
        } else {
            k
        };
        let coarse = self.search_l2(q, pool);
        let table = Cut::new(full, self.n, d);
        let ghost all = rescored(q@, table.all(), coarse@);
        let count: usize = coarse.len();
        let mut pairs: Vec<(u64, SearchResult<R>)> = Vec::new();
        let mut i: usize = 0;
        while i < count
            invariant
                i <= count,
                count == coarse@.len(),
                table.all().len() == self.n,
                self.n == self.coded().len(),
                forall|i: int|
                    0 <= i < coarse@.len() ==> (#[trigger] coarse@[i]).id < self.coded().len(),
                all == rescored(q@, table.all(), coarse@),
                pairs@ =~= all.take(i as int),
            decreases count - i,
        {
            let id: u32 = coarse[i].id;
            assert(coarse@[i as int].id < self.n);
            let s = sq_l2(table.row(id as usize), q);
            pairs.push((s.key(), SearchResult { id, score: s }));
            i += 1;
        }
        assert(all.take(count as int) =~= all);
        let top = select_top_k(pairs.as_slice(), k);
        take_payloads(top.as_slice())
    }
}

/// What a search that reranks finds.
pub open spec fn reranked<R: Scalar>(
    q: Seq<R>,
    rvq: Rvq<R>,
    codes: Seq<Seq<u8>>,
    full: Seq<Seq<R>>,
    k: nat,
    pool: nat,
) -> Seq<SearchResult<R>> {
    payloads(top_k(rescored(q, full, l2_found(q, rvq, codes, pool)), k))
}

/// The number `j` is that of a result.
pub open spec fn reported<R>(found: Seq<SearchResult<R>>, j: int) -> bool {
    exists|i: int| 0 <= i < found.len() && (#[trigger] found[i]).id == j
}

/// A search that reranks reports vectors with their exact distances, by ascending
/// distance. Where it reranks all vectors it is exact: it reports `k` of them or
/// all, and none that it leaves out is nearer than one that it reports.
pub proof fn lemma_reranked<R: Scalar>(
    q: Seq<R>,
    rvq: Rvq<R>,
    codes: Seq<Seq<u8>>,
    full: Seq<Seq<R>>,
    k: nat,
    pool: nat,
)
    requires
        codes.len() == full.len() <= 0x1_0000_0000,
    ensures
        ({
            let found = reranked(q, rvq, codes, full, k, pool);
            &&& found.len() <= k
            &&& forall|i: int|
                0 <= i < found.len() ==> {
                    let x = #[trigger] found[i];
                    &&& x.id < full.len()
                    &&& x.score == sq_l2_of(full[x.id as int], q)
                }
            &&& forall|i: int, j: int|
                0 <= i <= j < found.len() ==> (#[trigger] found[i]).score.key_of() <= (
                #[trigger] found[j]).score.key_of()
            &&& pool >= full.len() ==> {
                &&& found.len() == if k <= full.len() {
                    k
                } else {
                    full.len()
                }
                &&& forall|i: int, j: int|
                    0 <= i < found.len() && 0 <= j < full.len() && !reported(found, j) ==> (
                    #[trigger] found[i]).score.key_of() <= sq_l2_of(
                        #[trigger] full[j],
                        q,
                    ).key_of()
            }
        }),
{
    let all = l2_scores(q, rvq, codes);
    let near = top_k(all, pool);
    let coarse = payloads(near);
    let pairs = rescored(q, full, coarse);
    let top = top_k(pairs, k);
    let found = reranked(q, rvq, codes, full, k, pool);
    lemma_top_k(all, pool);
    lemma_top_k(pairs, k);
    assert forall|i: int| 0 <= i < coarse.len() implies (#[trigger] coarse[i]).id < full.len() by {
        assert(all.contains(near[i]));
        let j = choose|j: int| 0 <= j < all.len() && all[j] == near[i];
        assert(all[j] == near[i]);
    }
    assert forall|i: int| 0 <= i < found.len() implies {
        let x = #[trigger] found[i];
        &&& x.id < full.len()
        &&& x.score == sq_l2_of(full[x.id as int], q)
        &&& top[i].0 == x.score.key_of()
    } by {
        assert(pairs.contains(top[i]));
        let j = choose|j: int| 0 <= j < pairs.len() && pairs[j] == top[i];
        assert(coarse[j].id < full.len());
    }
    assert forall|i: int, j: int| 0 <= i <= j < found.len() implies (
    #[trigger] found[i]).score.key_of() <= (#[trigger] found[j]).score.key_of() by {
        assert(top[i].0 <= top[j].0);
    }
    if pool >= full.len() {
        assert forall|i: int, j: int|
            0 <= i < found.len() && 0 <= j < full.len() && !reported(found, j) implies (
        #[trigger] found[i]).score.key_of() <= sq_l2_of(#[trigger] full[j], q).key_of() by {
            assert(all.contains(all[j]));
            lemma_stable_sort_contains(all, all[j]);
            let sorted = stable_sort(all);
            lemma_stable_sort(all);
            let c = choose|c: int| 0 <= c < sorted.len() && sorted[c] == all[j];
            assert(near[c] == all[j]);
            assert(coarse[c].id == j);
            let x = pairs[c];
            assert(pairs.contains(x));
            if top.contains(x) {
                let z = choose|z: int| 0 <= z < top.len() && top[z] == x;
                assert(found[z].id == j);
            }
            lemma_top_k_smallest(pairs, k, i, x);
        }
    }
}

/// The distance of each row to a query, with the number of the row.
pub open spec fn row_distances<R: Scalar>(table: Seq<Seq<R>>, q: Seq<R>) -> Seq<(u64, u32)> {
    Seq::new(table.len(), |i: int| (sq_l2_of(table[i], q).key_of(), i as u32))
}

/// The `k` rows nearest to a query.
pub open spec fn rows_found<R: Scalar>(table: Seq<Seq<R>>, q: Seq<R>, k: nat) -> Seq<u32> {
    payloads(top_k(row_distances(table, q), k))
}

/// Scans all rows of `data` for the `k` nearest to `q`. Of rows at one distance
/// the earlier one comes first.
pub fn brute_l2_topk<R: Scalar>(data: &[R], d: usize, q: &[R], k: usize) -> (r: Vec<u32>)
    requires
        d > 0,
        data@.len() / d as nat <= 0x1_0000_0000,
    ensures
        r@ == rows_found(split(data@, d as nat), q@, k as nat),
{
    let table = Flat::new(data, d);
    let n: usize = table.count();
    let ghost want = row_distances(table.all(), q@);
    let mut all: Vec<(u64, u32)> = Vec::new();
    let mut i: usize = 0;
    while i < n
        invariant
            i <= n,
            n == table.all().len(),
            n <= 0x1_0000_0000,
            want == row_distances(table.all(), q@),
            all@ =~= want.take(i as int),
        decreases n - i,
    {
        all.push((sq_l2(table.row(i), q).key(), i as u32));
        i += 1;
    }
    assert(want.take(n as int) =~= want);
    let top = select_top_k(all.as_slice(), k);
    take_payloads(top.as_slice())
}

} // verus!
