//! Normal vectors for measurements.

use vstd::prelude::*;

use crate::noise::Noise;
use crate::overlap::{hits, hits_upto};
use crate::random::{chacha_words, draw_chacha_words};
use crate::scalar::{whole, Scalar};
use crate::sorting::first_n;
use crate::table::{holds, rows};

verus! {

/// The upper 24 bits of a word.
pub open spec fn high24(word: u32) -> u32 {
    word >> 8
}

fn upper24_of(word: u32) -> (r: u32)
    ensures
        r == high24(word),
        r < 0x100_0000,
{
    assert((word >> 8) < 0x100_0000u32) by (bit_vector);
    word >> 8
}

/// Component `at` of the vectors that words make.
pub open spec fn gauss_component<R: Scalar, N: Noise<R>>(
    noise: N,
    words: Seq<u32>,
    mean: R,
    at: int,
) -> R {
    noise.normal_of(high24(words[2 * at]), high24(words[2 * at + 1])).plus_of(mean)
}

/// The `n` vectors of dimension `d` that words make.
pub open spec fn gauss_rows<R: Scalar, N: Noise<R>>(
    noise: N,
    words: Seq<u32>,
    n: nat,
    d: nat,
    mean: R,
) -> Seq<Seq<R>> {
    Seq::new(
        n,
        |i: int| Seq::new(d, |j: int| gauss_component::<R, N>(noise, words, mean, i * d + j)),
    )
}

/// Makes vectors around `mean` from the words of a generator.
pub fn gauss_from_words<R: Scalar, N: Noise<R>>(
    n: usize,
    d: usize,
    mean: R,
    words: &[u32],
    noise: &N,
) -> (r: Vec<Vec<R>>)
    requires
        words@.len() == 2 * (n * d),
    ensures
        rows(r@) == gauss_rows::<R, N>(*noise, words@, n as nat, d as nat, mean),
{
    let size: usize = words.len();
    let ghost want = gauss_rows::<R, N>(*noise, words@, n as nat, d as nat, mean);
    let mut r: Vec<Vec<R>> = Vec::new();
    let mut next: usize = 0;
    let mut i: usize = 0;
    while i < n
        invariant
            i <= n,
            size == words@.len(),
            size == 2 * (n * d),
            next == 2 * (i * d),
            want == gauss_rows::<R, N>(*noise, words@, n as nat, d as nat, mean),
            rows(r@) =~= want.take(i as int),
        decreases n - i,
    {
        proof {
            crate::flat::lemma_cut_ends(n as nat, d as nat, i as nat);
            assert((i + 1) * d == i * d + d) by (nonlinear_arith);
        }
        let ghost row = want[i as int];
        let mut v: Vec<R> = Vec::new();
        let mut j: usize = 0;
        while j < d
            invariant
                j <= d,
                i < n,
                size == words@.len(),
                size == 2 * (n * d),
                i * d + d <= n * d,
                next == 2 * (i * d + j),
                row == Seq::new(
                    d as nat,
                    |j: int| gauss_component::<R, N>(*noise, words@, mean, i * d + j),
                ),
                v@ =~= row.take(j as int),
            decreases d - j,
        {
            let u1: u32 = upper24_of(words[next]);
            let u2: u32 = upper24_of(words[next + 1]);
            let z: R = noise.normal(u1, u2);
            v.push(z.plus(mean));
            next += 2;
            j += 1;
        }
        assert(row.take(d as int) =~= row);
        let ghost before = r@;
        r.push(v);
        i += 1;
        assert(rows(r@) =~= rows(before).push(row));
        assert(want.take(i as int) =~= want.take(i - 1).push(row));
    }
    assert(want.take(n as int) =~= want);
    r
}

/// Draws `n` vectors of dimension `d` around `mean`.
pub fn gen_gauss<R: Scalar, N: Noise<R>>(n: usize, d: usize, mean: R, seed: u64, noise: &N) -> (r:
    Vec<Vec<R>>)
    requires
        2 * (n * d) <= usize::MAX,
    ensures
        rows(r@) == gauss_rows::<R, N>(
            *noise,
            chacha_words(seed, (2 * (n * d)) as nat),
            n as nat,
            d as nat,
            mean,
        ),
{
    let words = draw_chacha_words(seed, 2 * (n * d));
    gauss_from_words(n, d, mean, words.as_slice(), noise)
}

/// The numbers of the first `k` results.
pub open spec fn first_ids<R>(got: Seq<(u32, R)>, k: nat) -> Seq<u32> {
    let top = first_n(got, k);
    Seq::new(top.len(), |i: int| top[i].0)
}

/// The share of `k` results that are among the first `k` true ones.
pub open spec fn share_of<R: Scalar>(got: Seq<(u32, R)>, truth: Seq<u32>, k: nat) -> R {
    whole::<R>(hits(first_ids(got, k), first_n(truth, k)) as u64).over_of(whole::<R>(k as u64))
}

/// The share of `k` results that are among the first `k` true ones.
pub fn share_at_k<R: Scalar>(got: &[(u32, R)], truth: &[u32], k: usize) -> (r: R)
    ensures
        r == share_of(got@, truth@, k as nat),
{
    let n: usize = if k <= got.len() {
        k
    } else {
        got.len()
    };
    let m: usize = if k <= truth.len() {
        k
    } else {
        truth.len()
    };
    let gold = vstd::slice::slice_subrange(truth, 0, m);
    assert(gold@ =~= first_n(truth@, k as nat));
    let ghost ids = first_ids(got@, k as nat);
    let mut hit: u64 = 0;
    let mut i: usize = 0;
    while i < n
        invariant
            i <= n,
            n <= got@.len(),
            n == ids.len(),
            ids == first_ids(got@, k as nat),
            gold@ == first_n(truth@, k as nat),
            hit == hits_upto(ids, gold@, i as nat),
            hit <= i,
        decreases n - i,
    {
        assert(ids[i as int] == got@[i as int].0);
        if holds(gold, got[i].0) {
            hit += 1;
        }
        i += 1;
    }
    R::ratio(hit, 1).over(R::ratio(k as u64, 1))
}

} // verus!
