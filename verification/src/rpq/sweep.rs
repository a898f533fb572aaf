//! Encoding a whole database and ranking it for a query.

use vstd::prelude::*;

use crate::flat::{
    flatten, lemma_cut_ends, lemma_split_rectangular, rectangular, split, Flat, Rows,
};
use crate::noise::{top24, Noise};
use crate::rpq::pq::{lemma_looked_up, table_of, Pq, CENTROIDS};
use crate::rpq::rng::{lemma_rng_after, rng_after, rng_draw, Rng};
use crate::rpq::Quantizer;
use crate::scalar::{whole, Scalar};
use crate::sorting::{lemma_top_k, select_top_k, top_k};
use crate::spaces::{payloads, take_payloads};
use crate::table::rows;

verus! {

/// Numbers with their scores as keys.
pub open spec fn by_score<R: Scalar>(scores: Seq<R>) -> Seq<(u64, u32)> {
    Seq::new(scores.len(), |i: int| (scores[i].key_of(), i as u32))
}

/// The numbers of the `k` smallest scores, the smallest first.
pub open spec fn best_scores<R: Scalar>(scores: Seq<R>, k: nat) -> Seq<u32> {
    payloads(top_k(by_score(scores), k))
}

/// Selects the numbers of the `k` smallest scores, the smallest first.
pub fn topk_from_scores<R: Scalar>(scores: &[R], k: usize) -> (r: Vec<u32>)
    requires
        1 <= k <= scores@.len() <= 0x1_0000_0000,
    ensures
        r@ == best_scores(scores@, k as nat),
        r@.len() == k,
{
    let n: usize = scores.len();
    let ghost want = by_score(scores@);
    let mut keyed: Vec<(u64, u32)> = Vec::new();
    let mut i: usize = 0;
    while i < n
        invariant
            i <= n,
            n == scores@.len(),
            n <= 0x1_0000_0000,
            want == by_score(scores@),
            keyed@ =~= want.take(i as int),
        decreases n - i,
    {
        keyed.push((scores[i].key(), i as u32));
        i += 1;
    }
    assert(want.take(n as int) =~= want);
    proof {
        lemma_top_k(want, k as nat);
    }
    let top = select_top_k(keyed.as_slice(), k);
    take_payloads(top.as_slice())
}

/// The codes of all rows.
pub open spec fn all_codes<R: Scalar, Q: Quantizer<R>>(q: Q, table: Seq<Seq<R>>) -> Seq<Seq<u8>> {
    Seq::new(table.len(), |i: int| q.code(table[i]))
}

/// The estimated distances of a query to codes.
pub open spec fn estimates<R: Scalar, Q: Quantizer<R>>(
    q: Q,
    query: Seq<R>,
    codes: Seq<Seq<u8>>,
) -> Seq<R> {
    Seq::new(codes.len(), |i: int| q.estimate(query, codes[i]))
}

/// Encodes every row of a database. The codes stand one behind the other.
pub fn encode_all<R: Scalar, Q: Quantizer<R>>(q: &Q, db: &[R], dim: usize) -> (codes: Vec<u8>)
    requires
        q.valid(),
        dim == q.width(),
        dim > 0,
        q.code_len() > 0,
    ensures
        split(codes@, q.code_len()) == all_codes::<R, Q>(*q, split(db@, dim as nat)),
        codes@.len() == split(db@, dim as nat).len() * q.code_len(),
{
    let table = Flat::new(db, dim);
    let n: usize = table.count();
    let cb: usize = q.code_bytes();
    let mut all: Vec<Vec<u8>> = Vec::new();
    let mut i: usize = 0;
    proof {
        lemma_split_rectangular(db@, dim as nat);
    }
    while i < n
        invariant
            i <= n,
            n == table.all().len(),
            table.all() == split(db@, dim as nat),
            rectangular(table.all(), dim as nat),
            q.valid(),
            dim == q.width(),
            cb == q.code_len(),
            all@.len() == i,
            forall|j: int|
                0 <= j < i ==> (#[trigger] all@[j])@ == q.code(table.all()[j]) && all@[j]@.len() == cb,
        decreases n - i,
    {
        let mut code: Vec<u8> = vec![0u8; cb];
        let row = table.row(i);
        assert(table.all()[i as int].len() == dim);
        q.encode(row, code.as_mut_slice());
        all.push(code);
        i += 1;
    }
    proof {
        let codes = rows(all@);
        assert(codes =~= all_codes::<R, Q>(*q, table.all()));
        assert forall|j: int| 0 <= j < codes.len() implies (#[trigger] codes[j]).len() == cb by {
            assert(codes[j] == all@[j]@);
        }
    }
    flatten(all.as_slice(), cb)
}

/// Estimates the distance of a query to every code.
pub fn score_codes<R: Scalar, Q: Quantizer<R>>(q: &Q, query: &[R], codes: &[u8]) -> (scores: Vec<R>)
    requires
        q.valid(),
        query@.len() == q.width(),
        q.code_len() > 0,
    ensures
        scores@ == estimates::<R, Q>(*q, query@, split(codes@, q.code_len())),
{
    let cb: usize = q.code_bytes();
    let table = Flat::new(codes, cb);
    let n: usize = table.count();
    let ghost want = estimates::<R, Q>(*q, query@, table.all());
    let mut scores: Vec<R> = Vec::new();
    let mut i: usize = 0;
    proof {
        lemma_split_rectangular(codes@, cb as nat);
    }
    while i < n
        invariant
            i <= n,
            n == table.all().len(),
            rectangular(table.all(), cb as nat),
            q.valid(),
            query@.len() == q.width(),
            cb == q.code_len(),
            want == estimates::<R, Q>(*q, query@, table.all()),
            scores@ =~= want.take(i as int),
        decreases n - i,
    {
        assert(table.all()[i as int].len() == cb);
        scores.push(q.adc_sq_distance(query, table.row(i)));
        i += 1;
    }
    assert(want.take(n as int) =~= want);
    scores
}

/// As `score_codes`, for product codes: the table of the query is computed once.
pub fn score_codes_once<R: Scalar>(q: &Pq<R>, query: &[R], codes: &[u8]) -> (scores: Vec<R>)
    requires
        q.valid(),
        query@.len() == Pq::width(q),
        q.code_len() > 0,
    ensures
        scores@ == estimates::<R, Pq<R>>(*q, query@, split(codes@, q.code_len())),
{
    let cb: usize = q.code_bytes();
    let table = Flat::new(codes, cb);
    let n: usize = table.count();
    let ghost want = estimates::<R, Pq<R>>(*q, query@, table.all());
    let lut = q.compute_lut(query);
    let mut scores: Vec<R> = Vec::new();
    let mut i: usize = 0;
    proof {
        lemma_split_rectangular(codes@, cb as nat);
    }
    proof {
        q.lemma_wf();
    }
    while i < n
        invariant
            i <= n,
            n == table.all().len(),
            rectangular(table.all(), cb as nat),
            q.wf(),
            query@.len() == Pq::width(q),
            cb == q.blocks(),
            lut@ == table_of(q.books(), q.sub(), query@),
            lut@.len() == q.blocks() * CENTROIDS,
            want == estimates::<R, Pq<R>>(*q, query@, table.all()),
            scores@ =~= want.take(i as int),
        decreases n - i,
    {
        let code = table.row(i);
        proof {
            assert(table.all()[i as int].len() == cb);
            q.lemma_wf();
            lemma_looked_up(q.books(), q.sub(), query@, code@, q.blocks());
        }
        scores.push(q.adc_from_lut(lut.as_slice(), code));
        i += 1;
    }
    assert(want.take(n as int) =~= want);
    scores
}

/// A sample of `noise` from draws `at` and `at + 1`.
pub open spec fn gauss_at<R, N: Noise<R>>(noise: N, s: u64, at: nat) -> R {
    noise.normal_of(top24(rng_draw(s, at)), top24(rng_draw(s, at + 1)))
}

/// The centres of a mixture, one component after another.
pub open spec fn mixture_centres<R: Scalar, N: Noise<R>>(noise: N, s: u64, n: nat) -> Seq<R> {
    Seq::new(n, |i: int| gauss_at::<R, N>(noise, s, 2 * i as nat).times_of(whole::<R>(3)))
}

/// Row `i` of a mixture: a centre that a draw selects, and noise around it.
pub open spec fn mixture_row<R: Scalar, N: Noise<R>>(
    noise: N,
    s: u64,
    clusters: nat,
    dim: nat,
    i: nat,
) -> Seq<R> {
    let centres = mixture_centres::<R, N>(noise, s, clusters * dim);
    let from = 2 * (clusters * dim) + i * (2 * dim + 1);
    let c = rng_draw(s, from) as nat % clusters;
    Seq::new(
        dim,
        |d: int|
            centres[c * dim + d].plus_of(
                gauss_at::<R, N>(noise, s, (from + 1 + 2 * d) as nat).times_of(R::ratio_of(1, 2)),
            ),
    )
}

/// Draws vectors from a mixture of normal distributions, one row after another.
pub fn make_clustered<R: Scalar, N: Noise<R>>(
    n: usize,
    dim: usize,
    n_clusters: usize,
    seed: u64,
    noise: &N,
) -> (r: Vec<R>)
    requires
        n_clusters > 0,
        dim > 0,
        n_clusters * dim <= usize::MAX,
        n * dim <= usize::MAX,
    ensures
        r@.len() == n * dim,
        split(r@, dim as nat) == Seq::new(
            n as nat,
            |i: int|
                mixture_row::<R, N>(
                    *noise,
                    if seed == 0 {
                        0x9E37_79B9_7F4A_7C15
                    } else {
                        seed
                    },
                    n_clusters as nat,
                    dim as nat,
                    i as nat,
                ),
        ),
{
    let mut rng = Rng::new(seed);
    let ghost s = rng@;
    let size: usize = n_clusters * dim;
    let ghost centres = mixture_centres::<R, N>(*noise, s, size as nat);
    let mut cent: Vec<R> = Vec::new();
    let mut j: usize = 0;
    while j < size
        invariant
            j <= size,
            centres == mixture_centres::<R, N>(*noise, s, size as nat),
            rng@ == rng_after(s, 2 * j as nat),
            cent@ =~= centres.take(j as int),
        decreases size - j,
    {
        proof {
            lemma_rng_after(s, 2 * j as nat, 1);
            lemma_rng_after(s, 2 * j as nat, 2);
        }
        let z: R = rng.next_gauss(noise);
        assert(z == gauss_at::<R, N>(*noise, s, 2 * j as nat));
        cent.push(z.times(R::ratio(3, 1)));
        j += 1;
    }
    assert(centres.take(size as int) =~= centres);
    let mut table: Vec<Vec<R>> = Vec::new();
    let mut i: usize = 0;
    let ghost from = 2 * size as nat;
    let ghost step = 2 * dim as nat + 1;
    assert(from + 0 * step == from) by (nonlinear_arith);
    while i < n
        invariant
            i <= n,
            n_clusters > 0,
            size == n_clusters * dim,
            from == 2 * size as nat,
            step == 2 * dim as nat + 1,
            centres == mixture_centres::<R, N>(*noise, s, size as nat),
            cent@ == centres,
            cent@.len() == size,
            rng@ == rng_after(s, from + i as nat * step),
            table@.len() == i,
            forall|x: int|
                0 <= x < i ==> (#[trigger] table@[x])@ == mixture_row::<R, N>(
                    *noise,
                    s,
                    n_clusters as nat,
                    dim as nat,
                    x as nat,
                ),
        decreases n - i,
    {
        let ghost at = from + i as nat * step;
        let ghost want = mixture_row::<R, N>(*noise, s, n_clusters as nat, dim as nat, i as nat);
        proof {
            lemma_rng_after(s, at, 1);
        }
        let draw: u64 = rng.next_u64();
        let c: usize = (draw % (n_clusters as u64)) as usize;
        proof {
            assert(rng@ == rng_after(s, at + 1)) by {
                reveal_with_fuel(rng_after, 2);
            }
            assert(draw == rng_draw(s, at));
            lemma_cut_ends(n_clusters as nat, dim as nat, c as nat);
        }
        let start: usize = c * dim;
        let mut v: Vec<R> = Vec::new();
        let mut d: usize = 0;
        while d < dim
            invariant
                d <= dim,
                start == c * dim,
                start + dim <= size,
                cent@ == centres,
                cent@.len() == size,
                size == n_clusters * dim,
                c == rng_draw(s, at) as nat % n_clusters as nat,
                at == from + i as nat * step,
                from == 2 * size as nat,
                step == 2 * dim as nat + 1,
                centres == mixture_centres::<R, N>(*noise, s, size as nat),
                rng@ == rng_after(s, at + 1 + 2 * d as nat),
                want == mixture_row::<R, N>(
                    *noise,
                    s,
                    n_clusters as nat,
                    dim as nat,
                    i as nat,
                ),
                v@ =~= want.take(d as int),
            decreases dim - d,
        {
            proof {
                lemma_rng_after(s, at + 1 + 2 * d as nat, 1);
                lemma_rng_after(s, at + 1 + 2 * d as nat, 2);
            }
            let z: R = rng.next_gauss(noise);
            assert(z == gauss_at::<R, N>(*noise, s, at + 1 + 2 * d as nat));
            v.push(cent[start + d].plus(z.times(R::ratio(1, 2))));
            d += 1;
        }
        proof {
            assert(want.take(dim as int) =~= want);
            assert(at + step == from + (i as nat + 1) * step) by (nonlinear_arith)
                requires
                    at == from + i as nat * step,
            ;
        }
        table.push(v);
        i += 1;
    }
    proof {
        let all = rows(table@);
        assert forall|x: int| 0 <= x < all.len() implies (#[trigger] all[x]).len() == dim by {
            assert(all[x] == table@[x]@);
        }
    }
    let r = flatten(table.as_slice(), dim);
    assert(split(r@, dim as nat) =~= Seq::new(
        n as nat,
        |i: int| mixture_row::<R, N>(*noise, s, n_clusters as nat, dim as nat, i as nat),
    ));
    r
}

} // verus!
