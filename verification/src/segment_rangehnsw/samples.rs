//! Points and windows for measurements.

use vstd::prelude::*;

use crate::noise::{top24, Noise};
use crate::overlap::{hits, hits_upto};
use crate::scalar::{whole, Scalar};
use crate::segment_rangehnsw::dist::{lcg_after, lemma_lcg_after, Lcg};
use crate::segment_rangehnsw::Point;
use crate::table::holds;

verus! {

/// Component `j` of the point for which state `s` is drawn on.
pub open spec fn sample_component<R, N: Noise<R>>(noise: N, s: u64, j: nat) -> R {
    noise.normal_of(top24(lcg_after(s, 2 * j + 1)), top24(lcg_after(s, 2 * j + 2)))
}

/// The vector of the point for which state `s` is drawn on.
pub open spec fn sample_vector<R, N: Noise<R>>(noise: N, s: u64, d: nat) -> Seq<R> {
    Seq::new(d, |j: int| sample_component(noise, s, j as nat))
}

/// The state that is drawn on for point `i`.
pub open spec fn point_state(s: u64, d: nat, i: nat) -> u64 {
    lcg_after(s, i * (2 * d + 1))
}

/// A uniform value from [0, 1).
pub open spec fn unit<R: Scalar>(draw: u64) -> R {
    R::ratio_of(top24(draw) as u64, 0x100_0000)
}

/// The state that a generator starts from.
pub open spec fn first_state(seed: u64) -> u64 {
    seed.wrapping_mul(0x9E37_79B9_7F4A_7C15).wrapping_add(1)
}

/// Generates `n` points with normal components and uniform keys.
pub fn gen_points<R: Scalar, N: Noise<R>>(n: usize, d: usize, seed: u64, noise: &N) -> (r: Vec<
    Point<R>,
>)
    requires
        n <= u32::MAX,
    ensures
        r@.len() == n,
        forall|i: int|
            0 <= i < n ==> {
                let p = #[trigger] r@[i];
                let s = point_state(first_state(seed), d as nat, i as nat);
                &&& p.0 == i
                &&& p.1 == unit::<R>(lcg_after(s, 2 * d as nat + 1)).key_of()
                &&& p.2@ == sample_vector::<R, N>(*noise, s, d as nat)
            },
{
    let mut rng = Lcg::new(seed);
    let ghost first = first_state(seed);
    let mut r: Vec<Point<R>> = Vec::new();
    let mut i: usize = 0;
    while i < n
        invariant
            i <= n,
            n <= u32::MAX,
            first == first_state(seed),
            rng.0 == point_state(first, d as nat, i as nat),
            r@.len() == i,
            forall|i: int|
                0 <= i < r@.len() ==> {
                    let p = #[trigger] r@[i];
                    let s = point_state(first, d as nat, i as nat);
                    &&& p.0 == i
                    &&& p.1 == unit::<R>(lcg_after(s, 2 * d as nat + 1)).key_of()
                    &&& p.2@ == sample_vector::<R, N>(*noise, s, d as nat)
                },
        decreases n - i,
    {
        let ghost s = rng.0;
        let ghost want = sample_vector::<R, N>(*noise, s, d as nat);
        let mut v: Vec<R> = Vec::new();
        let mut j: usize = 0;
        while j < d
            invariant
                j <= d,
                want == sample_vector::<R, N>(*noise, s, d as nat),
                rng.0 == lcg_after(s, 2 * j as nat),
                v@ =~= want.take(j as int),
            decreases d - j,
        {
            proof {
                lemma_lcg_after(s, 2 * j as nat, 1);
                lemma_lcg_after(s, 2 * j as nat, 2);
            }
            let x: R = rng.next_gauss(noise);
            assert(x == sample_component::<R, N>(*noise, s, j as nat));
            v.push(x);
            j += 1;
        }
        assert(want.take(d as int) =~= want);
        let u: u32 = rng.next_f32();
        let key: R = R::ratio(u as u64, 0x100_0000);
        proof {
            lemma_lcg_after(first, i as nat * (2 * d as nat + 1), 2 * d as nat + 1);
            assert((i as nat + 1) * (2 * d as nat + 1) == i as nat * (2 * d as nat + 1) + (2
                * d as nat + 1)) by (nonlinear_arith);
        }
        r.push((i as u32, key.key(), v));
        i += 1;
    }
    r
}

/// The lower bound of window `i`.
pub open spec fn window_start<R: Scalar>(seed: u64, sel: R, i: nat) -> R {
    unit::<R>(lcg_after(first_state(seed), i + 1)).times_of(whole::<R>(1).minus_of(sel))
}

/// Generates `num` windows of width `sel` between zero and one.
pub fn gen_query_ranges<R: Scalar>(num: usize, sel: R, seed: u64) -> (r: Vec<(R, R)>)
    ensures
        r@ == Seq::new(
            num as nat,
            |i: int|
                (
                    window_start(seed, sel, i as nat),
                    window_start(seed, sel, i as nat).plus_of(sel),
                ),
        ),
{
    let ghost want = Seq::new(
        num as nat,
        |i: int|
            (window_start(seed, sel, i as nat), window_start(seed, sel, i as nat).plus_of(sel)),
    );
    let mut rng = Lcg::new(seed);
    let ghost first = first_state(seed);
    let mut r: Vec<(R, R)> = Vec::new();
    let mut i: usize = 0;
    while i < num
        invariant
            i <= num,
            first == first_state(seed),
            rng.0 == lcg_after(first, i as nat),
            want == Seq::new(
                num as nat,
                |i: int|
                    (
                        window_start(seed, sel, i as nat),
                        window_start(seed, sel, i as nat).plus_of(sel),
                    ),
            ),
            r@ =~= want.take(i as int),
        decreases num - i,
    {
        let u: u32 = rng.next_f32();
        let start: R = R::ratio(u as u64, 0x100_0000).times(R::ratio(1, 1).minus(sel));
        assert(start == window_start(seed, sel, i as nat));
        r.push((start, start.plus(sel)));
        i += 1;
    }
    assert(want.take(num as int) =~= want);
    r
}

/// The share of the true numbers that were found; one where there are none.
pub open spec fn recall_of<R: Scalar>(gt: Seq<u32>, got: Seq<u32>) -> R {
    if gt.len() == 0 {
        whole::<R>(1)
    } else {
        whole::<R>(hits(gt, got) as u64).over_of(whole::<R>(gt.len() as u64))
    }
}

/// The share of the true numbers that were found; one where there are none.
pub fn recall<R: Scalar>(gt: &[u32], got: &[u32]) -> (r: R)
    ensures
        r == recall_of::<R>(gt@, got@),
{
    let n: usize = gt.len();
    if n == 0 {
        return R::ratio(1, 1);
    }
    let mut hit: u64 = 0;
    let mut i: usize = 0;
    while i < n
        invariant
            i <= n,
            n == gt@.len(),
            hit == hits_upto(gt@, got@, i as nat),
            hit <= i,
        decreases n - i,
    {
        if holds(got, gt[i]) {
            hit += 1;
        }
        i += 1;
    }
    R::ratio(hit, 1).over(R::ratio(n as u64, 1))
}

} // verus!
