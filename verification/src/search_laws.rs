//! What scans over all vectors find.

use vstd::prelude::*;

use crate::linalg::{dot_of, sq_l2_of};
use crate::ranking_laws::{least_keys, lemma_least_keys, numbered};
use crate::roargraph::dataset::nearest_set;
use crate::rpq::{nearest_rows, scored};
use crate::rpq::sweep::{best_scores, by_score};
use crate::rvq::index::{
    ip_found, ip_scores, l2_found, l2_scores, row_distances, rows_found, SearchResult,
};
use crate::rvq::{ip_table, l2_estimate, looked_up, norm_table, Rvq};
use crate::scalar::Scalar;
use crate::soar_ivf::metrics::{all_hits, nearest_vectors, Hit};
use crate::sorting::top_k;
use crate::spaces::payloads;

verus! {

/// Numbers without their width.
pub open spec fn plain(ids: Seq<u32>) -> Seq<int> {
    Seq::new(ids.len(), |i: int| ids[i] as int)
}

/// A scan over a database finds the rows nearest to a query, the nearest one
/// first.
pub proof fn lemma_brute_topk<R: Scalar>(query: Seq<R>, table: Seq<Seq<R>>, k: nat)
    requires
        table.len() <= 0x1_0000_0000,
        table.len() <= usize::MAX,
    ensures
        least_keys(
            plain(nearest_rows(query, table, k)),
            |i: int| sq_l2_of(query, table[i]).key_of(),
            table.len(),
            k,
        ),
{
    let all = scored(query, table);
    let id = |x: u32| x as int;
    let keys = |i: int| sq_l2_of(query, table[i]).key_of();
    assert(numbered(all, id));
    lemma_least_keys(all, id, keys, k);
    let found = payloads(top_k(all, k));
    assert(plain(found) =~= Seq::new(found.len(), |i: int| id(found[i])));
}

/// The best scores are the least ones, the least one first.
pub proof fn lemma_best_scores<R: Scalar>(scores: Seq<R>, k: nat)
    requires
        scores.len() <= 0x1_0000_0000,
        scores.len() <= usize::MAX,
    ensures
        least_keys(
            plain(best_scores(scores, k)),
            |i: int| scores[i].key_of(),
            scores.len(),
            k,
        ),
{
    let all = by_score(scores);
    let id = |x: u32| x as int;
    let keys = |i: int| scores[i].key_of();
    assert(numbered(all, id));
    lemma_least_keys(all, id, keys, k);
    let found = payloads(top_k(all, k));
    assert(plain(found) =~= Seq::new(found.len(), |i: int| id(found[i])));
}

/// A scan over rows finds those nearest to a query, the nearest one first.
pub proof fn lemma_brute_l2_topk<R: Scalar>(table: Seq<Seq<R>>, query: Seq<R>, k: nat)
    requires
        table.len() <= 0x1_0000_0000,
        table.len() <= usize::MAX,
    ensures
        least_keys(
            plain(rows_found(table, query, k)),
            |i: int| sq_l2_of(table[i], query).key_of(),
            table.len(),
            k,
        ),
{
    let all = row_distances(table, query);
    let id = |x: u32| x as int;
    let keys = |i: int| sq_l2_of(table[i], query).key_of();
    assert(numbered(all, id));
    lemma_least_keys(all, id, keys, k);
    let found = payloads(top_k(all, k));
    assert(plain(found) =~= Seq::new(found.len(), |i: int| id(found[i])));
}

/// The numbers of results.
pub open spec fn result_ids<R>(found: Seq<SearchResult<R>>) -> Seq<int> {
    Seq::new(found.len(), |i: int| found[i].id as int)
}

/// The estimated squared distance of a query to a code.
pub open spec fn l2_score<R: Scalar>(q: Seq<R>, rvq: Rvq<R>, code: Seq<u8>) -> R {
    l2_estimate(
        dot_of(q, q),
        ip_table(q, rvq.books(), rvq.size()),
        norm_table(rvq.books(), rvq.size()),
        rvq.size(),
        code,
        rvq.depth(),
    )
}

/// The estimated inner product of a query with a code.
pub open spec fn ip_score<R: Scalar>(q: Seq<R>, rvq: Rvq<R>, code: Seq<u8>) -> R {
    looked_up(ip_table(q, rvq.books(), rvq.size()), rvq.size(), code, rvq.depth())
}

/// A search by distance finds the codes with the least estimates, the least one first,
/// and reports the estimates.
pub proof fn lemma_search_l2<R: Scalar>(q: Seq<R>, rvq: Rvq<R>, codes: Seq<Seq<u8>>, k: nat)
    requires
        codes.len() <= 0x1_0000_0000,
        codes.len() <= usize::MAX,
    ensures
        ({
            let found = l2_found(q, rvq, codes, k);
            &&& least_keys(
                result_ids(found),
                |i: int| l2_score(q, rvq, codes[i]).key_of(),
                codes.len(),
                k,
            )
            &&& forall|i: int|
                0 <= i < found.len() ==> (#[trigger] found[i]).score == l2_score(
                    q,
                    rvq,
                    codes[found[i].id as int],
                )
        }),
{
    let all = l2_scores(q, rvq, codes);
    let id = |x: SearchResult<R>| x.id as int;
    let keys = |i: int| l2_score(q, rvq, codes[i]).key_of();
    assert(numbered(all, id));
    lemma_least_keys(all, id, keys, k);
    let found = payloads(top_k(all, k));
    assert(result_ids(found) =~= Seq::new(found.len(), |i: int| id(found[i])));
    assert forall|i: int| 0 <= i < found.len() implies (#[trigger] found[i]).score == l2_score(
        q,
        rvq,
        codes[found[i].id as int],
    ) by {
        assert(found[i] == all[id(found[i])].1);
    }
}

/// A search by inner product finds the codes with the greatest estimates, the greatest
/// one first, and reports the estimates.
pub proof fn lemma_search_ip<R: Scalar>(q: Seq<R>, rvq: Rvq<R>, codes: Seq<Seq<u8>>, k: nat)
    requires
        codes.len() <= 0x1_0000_0000,
        codes.len() <= usize::MAX,
    ensures
        ({
            let found = ip_found(q, rvq, codes, k);
            let ids = result_ids(found);
            &&& found.len() == if k <= codes.len() {
                k
            } else {
                codes.len()
            }
            &&& forall|i: int|
                0 <= i < found.len() ==> (#[trigger] found[i]).id < codes.len() && found[i].score
                    == ip_score(q, rvq, codes[found[i].id as int])
            &&& forall|i: int, j: int|
                0 <= i < j < found.len() ==> {
                    let (a, b) = (#[trigger] found[i], #[trigger] found[j]);
                    ||| a.score.key_of() > b.score.key_of()
                    ||| a.score.key_of() == b.score.key_of() && a.id < b.id
                }
            &&& forall|i: int, x: int|
                0 <= i < found.len() && 0 <= x < codes.len() && !ids.contains(x) ==> (
                #[trigger] found[i]).score.key_of() >= ip_score(
                    q,
                    rvq,
                    #[trigger] codes[x],
                ).key_of()
        }),
{
    let all = ip_scores(q, rvq, codes);
    let id = |x: SearchResult<R>| x.id as int;
    let keys = |i: int| (u64::MAX - ip_score(q, rvq, codes[i]).key_of()) as u64;
    assert(numbered(all, id));
    lemma_least_keys(all, id, keys, k);
    let found = payloads(top_k(all, k));
    let ids = result_ids(found);
    assert(ids =~= Seq::new(found.len(), |i: int| id(found[i])));
    assert forall|i: int| 0 <= i < found.len() implies (#[trigger] found[i]).id < codes.len()
        && found[i].score == ip_score(q, rvq, codes[found[i].id as int]) && ids[i]
        == found[i].id by {
        assert(found[i] == all[id(found[i])].1);
    }
    assert forall|i: int, x: int|
        0 <= i < found.len() && 0 <= x < codes.len() && !ids.contains(x) implies (
    #[trigger] found[i]).score.key_of() >= ip_score(q, rvq, #[trigger] codes[x]).key_of() by {
        assert(keys(ids[i]) <= keys(x));
    }
    assert forall|i: int, j: int| 0 <= i < j < found.len() implies {
        let (a, b) = (#[trigger] found[i], #[trigger] found[j]);
        ||| a.score.key_of() > b.score.key_of()
        ||| a.score.key_of() == b.score.key_of() && a.id < b.id
    } by {
        let (a, b) = (ids[i], ids[j]);
        assert(keys(a) < keys(b) || (keys(a) == keys(b) && a < b));
    }
}

/// The numbers of hits.
pub open spec fn hit_numbers<R>(found: Seq<Hit<R>>) -> Seq<int> {
    Seq::new(found.len(), |i: int| found[i].id as int)
}

/// A scan over all vectors finds those nearest to a query, the nearest one first, and
/// reports their distances.
pub proof fn lemma_brute_force_topk<R: Scalar>(query: Seq<R>, vectors: Seq<Seq<R>>, k: nat)
    requires
        vectors.len() <= usize::MAX,
    ensures
        ({
            let found = nearest_vectors(query, vectors, k);
            &&& least_keys(
                hit_numbers(found),
                |i: int| sq_l2_of(query, vectors[i]).key_of(),
                vectors.len(),
                k,
            )
            &&& forall|i: int|
                0 <= i < found.len() ==> (#[trigger] found[i]).dist == sq_l2_of(
                    query,
                    vectors[found[i].id as int],
                )
        }),
{
    let all = all_hits(query, vectors);
    let id = |x: Hit<R>| x.id as int;
    let keys = |i: int| sq_l2_of(query, vectors[i]).key_of();
    assert(numbered(all, id));
    lemma_least_keys(all, id, keys, k);
    let found = payloads(top_k(all, k));
    assert(hit_numbers(found) =~= Seq::new(found.len(), |i: int| id(found[i])));
    assert forall|i: int| 0 <= i < found.len() implies (#[trigger] found[i]).dist == sq_l2_of(
        query,
        vectors[found[i].id as int],
    ) by {
        assert(found[i] == all[id(found[i])].1);
    }
}

/// The nearest set of a query holds as many vectors as were asked for, or all, and no
/// vector outside of it is nearer than one inside.
pub proof fn lemma_nearest_set<R: Scalar>(query: Seq<R>, corpus: Seq<Seq<R>>, k: nat)
    requires
        corpus.len() <= usize::MAX,
    ensures
        ({
            let near = nearest_set(query, corpus, k);
            &&& near.finite()
            &&& near.len() == if k <= corpus.len() {
                k
            } else {
                corpus.len()
            }
            &&& forall|x: usize| #[trigger] near.contains(x) ==> x < corpus.len()
            &&& forall|x: usize, y: usize|
                #[trigger] near.contains(x) && !(#[trigger] near.contains(y)) && y < corpus.len()
                    ==> sq_l2_of(query, corpus[x as int]).key_of() <= sq_l2_of(
                    query,
                    corpus[y as int],
                ).key_of()
        }),
{
    let all = crate::roargraph::dataset::numbered(query, corpus);
    let near = nearest_set(query, corpus, k);
    let id = |x: usize| x as int;
    let keys = |i: int| sq_l2_of(query, corpus[i]).key_of();
    assert(numbered(all, id));
    lemma_least_keys(all, id, keys, k);
    let found = payloads(top_k(all, k));
    let ids = Seq::new(found.len(), |i: int| id(found[i]));
    assert(near == found.to_set());
    assert(found.no_duplicates()) by {
        assert forall|i: int, j: int|
            0 <= i < found.len() && 0 <= j < found.len() && i != j implies found[i] != found[j] by {
            if i < j {
                assert(ids[i] != ids[j]);
            } else {
                assert(ids[j] != ids[i]);
            }
        }
    }
    found.unique_seq_to_set();
    assert forall|x: usize| #[trigger] near.contains(x) implies x < corpus.len() by {
        let i = choose|i: int| 0 <= i < found.len() && found[i] == x;
        assert(ids[i] == x);
    }
    assert forall|x: usize, y: usize| #[trigger]
        near.contains(x) && !(#[trigger] near.contains(y)) && y < corpus.len() implies sq_l2_of(
        query,
        corpus[x as int],
    ).key_of() <= sq_l2_of(query, corpus[y as int]).key_of() by {
        let i = choose|i: int| 0 <= i < found.len() && found[i] == x;
        assert(ids[i] == x);
        if ids.contains(y as int) {
            let j = choose|j: int| 0 <= j < ids.len() && ids[j] == y;
            assert(found[j] == y);
            assert(found.contains(y));
        }
        assert(keys(ids[i]) <= keys(y as int));
    }
}

} // verus!
