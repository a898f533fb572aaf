//! How generated workloads are laid out, over fixed-point numbers and triangular noise.

use vstd::prelude::*;

use crate::exact::lemma_times;
use crate::noise::{top24, top53, FineNoise, Noise, Triangular};
use crate::rknn_verified::dataset::{
    cluster_centres, is_hub, near_centre, splitmix_draw, vector_draw, vectors_of, GenSpec,
};
use crate::roargraph::dataset::{base_centres, mixture, query_centres, uniform, DatasetParams};
use crate::roargraph::generated;
use crate::rpq::sweep::{mixture_centres, mixture_row};
use crate::scalar::{whole, Fixed, Scalar};
use crate::segment_rangehnsw::samples::{unit, window_start};
use crate::serf::data::{Dataset as Points, Query};
use crate::soar_ivf::dataset::{around_centres, centres_of, DatasetConfig};

verus! {

/// Samples lie between minus one and one, and are the sum of the two draws less one.
pub proof fn lemma_triangular(u1: u32, u2: u32)
    requires
        u1 < 0x100_0000,
        u2 < 0x100_0000,
    ensures
        ({
            let z: Fixed = Noise::<Fixed>::normal_of(&Triangular, u1, u2);
            &&& -0x1_0000 <= z.raw < 0x1_0000
            &&& 0x100 * (z.raw + 0x1_0000) <= u1 + u2 < 0x100 * (z.raw + 0x1_0001)
        }),
{
}

/// As for coarse draws.
pub proof fn lemma_fine_triangular(u1: u64, u2: u64)
    requires
        u1 < 0x20_0000_0000_0000,
        u2 < 0x20_0000_0000_0000,
    ensures
        ({
            let z: Fixed = FineNoise::<Fixed>::fine_normal_of(&Triangular, u1, u2);
            &&& -0x1_0000 <= z.raw < 0x1_0000
            &&& 0x20_0000_0000 * (z.raw + 0x1_0000) <= u1 + u2 < 0x20_0000_0000 * (z.raw
                + 0x1_0001)
        }),
{
}

/// A sample between minus one and one, times a spread.
proof fn lemma_spread(z: Fixed, spread: Fixed)
    requires
        -0x1_0000 <= z.raw <= 0x1_0000,
        0 <= spread.raw <= 0x1_0000_0000,
    ensures
        -spread.raw <= z.times_of(spread).raw <= spread.raw,
        -spread.raw <= spread.times_of(z).raw <= spread.raw,
{
    let p = z.raw * spread.raw;
    assert(-0x1_0000 * spread.raw <= p <= 0x1_0000 * spread.raw) by (nonlinear_arith)
        requires
            p == z.raw * spread.raw,
            -0x1_0000 <= z.raw <= 0x1_0000,
            spread.raw >= 0,
    ;
    assert(spread.raw * z.raw == p) by (nonlinear_arith)
        requires
            p == z.raw * spread.raw,
    ;
    lemma_times(z, spread);
    lemma_times(spread, z);
}

proof fn lemma_top53(draw: u64)
    ensures
        top53(draw) < 0x20_0000_0000_0000,
{
    assert((draw >> 11) < 0x20_0000_0000_0000u64) by (bit_vector);
}

/// Every component of `v` is within `spread` of that of `centre`.
pub open spec fn around(v: Seq<Fixed>, centre: Seq<Fixed>, spread: Fixed) -> bool {
    v.len() == centre.len() && forall|d: int|
        0 <= d < v.len() ==> -spread.raw <= (#[trigger] v[d]).raw - centre[d].raw <= spread.raw
}

/// The centres of the clusters for inverted files lie within the spread of the centres
/// from the origin, and each vector lies within the spread of a cluster from one of
/// them.
pub proof fn lemma_ivf_clusters(config: DatasetConfig<Fixed>, s: u64, n: nat, i: int)
    requires
        0 <= i < n,
        config.n_clusters > 0,
        0 <= config.sigma.raw <= 0x1_0000_0000,
        0 <= config.center_sigma.raw <= 0x1_0000_0000,
    ensures
        ({
            let centres = centres_of(Triangular, config);
            let vectors = around_centres(Triangular, config, centres, s, n);
            &&& centres.len() == config.n_clusters
            &&& forall|c: int, d: int|
                0 <= c < centres.len() && 0 <= d < config.dims ==> -config.center_sigma.raw <= (
                #[trigger] centres[c][d]).raw <= config.center_sigma.raw
            &&& exists|c: int|
                0 <= c < centres.len() && around(vectors[i], #[trigger] centres[c], config.sigma)
        }),
{
    let centres = centres_of(Triangular, config);
    let vectors = around_centres(Triangular, config, centres, s, n);
    let dims = config.dims as nat;
    let start = crate::soar_ivf::dataset::lcg_seeded(config.seed);
    assert forall|c: int, d: int| 0 <= c < centres.len() && 0 <= d < config.dims implies
        -config.center_sigma.raw <= (#[trigger] centres[c][d]).raw <= config.center_sigma.raw by {
        let at = (2 * (c * dims + d)) as nat;
        lemma_normal_at(start, at);
        lemma_spread(
            crate::soar_ivf::dataset::normal_at(Triangular, start, at),
            config.center_sigma,
        );
    }
    let at = (i * (2 * config.dims + 1)) as nat;
    let c = crate::soar_ivf::dataset::in_range_of(
        crate::soar_ivf::dataset::lcg_after(s, at + 1),
        0,
        config.n_clusters,
    );
    assert(0 <= c < centres.len());
    assert(around(vectors[i], centres[c], config.sigma)) by {
        assert forall|d: int| 0 <= d < vectors[i].len() implies -config.sigma.raw <= (
        #[trigger] vectors[i][d]).raw - centres[c][d].raw <= config.sigma.raw by {
            let here = (at + 1 + 2 * d) as nat;
            lemma_normal_at(s, here);
            let z = crate::soar_ivf::dataset::normal_at(Triangular, s, here);
            lemma_spread(z, config.sigma);
            assert(-config.center_sigma.raw <= centres[c][d].raw <= config.center_sigma.raw);
            assert(vectors[i][d] == centres[c][d].plus_of(z.times_of(config.sigma)));
        }
    }
}

proof fn lemma_normal_at(s: u64, at: nat)
    ensures
        -0x1_0000 <= crate::soar_ivf::dataset::normal_at::<Fixed, Triangular>(
            Triangular,
            s,
            at,
        ).raw < 0x1_0000,
{
    let a = crate::soar_ivf::dataset::lcg_after(s, at + 1);
    let b = crate::soar_ivf::dataset::lcg_after(s, at + 2);
    lemma_top53(a);
    lemma_top53(b);
    lemma_fine_triangular(top53(a), top53(b));
}

proof fn lemma_gauss_at(s: u64, at: nat)
    ensures
        -0x1_0000 <= crate::rpq::sweep::gauss_at::<Fixed, Triangular>(Triangular, s, at).raw
            < 0x1_0000,
{
    let a = crate::rpq::rng::rng_draw(s, at);
    let b = crate::rpq::rng::rng_draw(s, at + 1);
    crate::noise::lemma_top24(a);
    crate::noise::lemma_top24(b);
    lemma_triangular(top24(a), top24(b));
}

/// The centres of the mixture for product codes lie within three from the origin, and
/// each row lies within a half from one of them.
pub proof fn lemma_mixture_clusters(s: u64, clusters: nat, dim: nat, i: nat)
    requires
        clusters > 0,
    ensures
        ({
            let centres: Seq<Fixed> = mixture_centres(Triangular, s, clusters * dim);
            let row: Seq<Fixed> = mixture_row(Triangular, s, clusters, dim, i);
            &&& forall|x: int|
                0 <= x < centres.len() ==> -0x3_0000 <= (#[trigger] centres[x]).raw <= 0x3_0000
            &&& exists|c: int|
                0 <= c < clusters && #[trigger] around(
                    row,
                    centres.subrange(c * dim, c * dim + dim),
                    Fixed { raw: 0x8000 },
                )
        }),
{
    let centres: Seq<Fixed> = mixture_centres(Triangular, s, clusters * dim);
    let row: Seq<Fixed> = mixture_row(Triangular, s, clusters, dim, i);
    assert(whole::<Fixed>(3).raw == 0x3_0000);
    assert(Fixed::ratio_of(1, 2).raw == 0x8000);
    assert forall|x: int| 0 <= x < centres.len() implies -0x3_0000 <= (#[trigger] centres[x]).raw
        <= 0x3_0000 by {
        lemma_gauss_at(s, 2 * x as nat);
        lemma_spread(
            crate::rpq::sweep::gauss_at(Triangular, s, 2 * x as nat),
            whole::<Fixed>(3),
        );
    }
    let from = 2 * (clusters * dim) + i * (2 * dim + 1);
    let c = (crate::rpq::rng::rng_draw(s, from) as nat % clusters) as int;
    crate::flat::lemma_cut_ends(clusters, dim, c as nat);
    let centre = centres.subrange(c * dim, c * dim + dim);
    assert(around(row, centre, Fixed { raw: 0x8000 })) by {
        assert forall|d: int| 0 <= d < row.len() implies -0x8000 <= (#[trigger] row[d]).raw
            - centre[d].raw <= 0x8000 by {
            let here = (from + 1 + 2 * d) as nat;
            lemma_gauss_at(s, here);
            let z: Fixed = crate::rpq::sweep::gauss_at(Triangular, s, here);
            lemma_spread(z, Fixed::ratio_of(1, 2));
            assert(centre[d] == centres[c * dim + d]);
            assert(-0x3_0000 <= centres[c * dim + d].raw <= 0x3_0000);
        }
    }
}

/// Queries out of distribution are centred elsewhere than the base: the first half of
/// the components of a centre is shifted, and the second half is not.
pub proof fn lemma_shifted_centres(p: DatasetParams<Fixed>, words: Seq<u32>, c: int, j: int)
    requires
        0 <= c < p.n_clusters,
        0 <= j < p.dim,
        0 <= p.cluster_range.raw <= 0x4000_0000,
        -0x4000_0000 <= p.ood_shift.raw <= 0x4000_0000,
    ensures
        ({
            let base = base_centres(p, words);
            let shifted = query_centres(p, base);
            &&& -p.cluster_range.raw <= base[c][j].raw <= p.cluster_range.raw
            &&& shifted.len() == base.len() == p.n_clusters
            &&& shifted[c][j].raw - base[c][j].raw == if j < p.dim / 2 {
                p.ood_shift.raw as int
            } else {
                0
            }
        }),
{
    let low = Fixed::zero_of().minus_of(p.cluster_range);
    lemma_uniform(words[c * p.dim + j], low, p.cluster_range);
}

/// A uniform draw lies between its bounds, and is as far from the lower one as the
/// drawn fraction of the way.
pub proof fn lemma_uniform(word: u32, low: Fixed, high: Fixed)
    requires
        low.raw <= high.raw,
        -0x4000_0000 <= low.raw,
        high.raw <= 0x4000_0000,
    ensures
        low.raw <= uniform(word, low, high).raw <= high.raw,
        ({
            let (f, width) = ((word >> 9) as int, high.raw - low.raw);
            let up = uniform(word, low, high).raw - low.raw;
            0x80_0000 * up <= f * width < 0x80_0000 * (up + 1) + 0x80 * width + 1
        }),
{
    let f = (word >> 9) as u64;
    assert((word >> 9) < 0x80_0000u32) by (bit_vector);
    let u = Fixed::ratio_of(f, 0x80_0000);
    assert(u.raw == f / 0x80);
    let wide = high.minus_of(low);
    assert(wide.raw == high.raw - low.raw);
    let (x, w) = (u.raw as int, wide.raw as int);
    let xw = x * w;
    assert(0 <= xw <= 0x1_0000 * w) by (nonlinear_arith)
        requires
            xw == x * w,
            0 <= x <= 0x1_0000,
            w >= 0,
    ;
    lemma_times(u, wide);
    let fw = f * w;
    assert(0x80 * xw <= fw <= 0x80 * xw + 0x80 * w) by (nonlinear_arith)
        requires
            xw == x * w,
            fw == f * w,
            0x80 * x <= f < 0x80 * x + 0x80,
            w >= 0,
    ;
    let up = u.times_of(wide).raw as int;
    assert(uniform(word, low, high).raw - low.raw == up);
    assert(fw == (word >> 9) as int * (high.raw - low.raw));
}

/// The vectors of a mixture take turns: vector `i` lies within `std` of centre `i`,
/// counted round.
pub proof fn lemma_mixture_turns(
    centres: Seq<Seq<Fixed>>,
    dim: nat,
    std: Fixed,
    n: nat,
    words: Seq<u32>,
    from: int,
    i: int,
)
    requires
        0 <= i < n,
        centres.len() > 0,
        0 <= std.raw <= 0x1_0000_0000,
        forall|c: int, j: int|
            0 <= c < centres.len() && 0 <= j < dim ==> -0x1_0000_0000 <= (#[trigger] centres[c][j]).raw
                <= 0x1_0000_0000,
        forall|c: int| 0 <= c < centres.len() ==> (#[trigger] centres[c]).len() == dim,
    ensures
        around(
            mixture(Triangular, centres, dim, std, n, words, from)[i],
            centres[i % centres.len() as int],
            std,
        ),
{
    let row = mixture(Triangular, centres, dim, std, n, words, from)[i];
    let c = i % centres.len() as int;
    assert(0 <= c < centres.len());
    assert(centres[c].len() == dim);
    assert forall|j: int| 0 <= j < row.len() implies -std.raw <= (#[trigger] row[j]).raw
        - centres[c][j].raw <= std.raw by {
        let at = from + 2 * (i * dim + j);
        let (a, b) = (words[at], words[at + 1]);
        assert((a >> 9) < 0x80_0000u32) by (bit_vector);
        assert((b >> 8) < 0x100_0000u32) by (bit_vector);
        let u1 = ((a >> 9) * 2) as u32;
        lemma_triangular(u1, b >> 8);
        let z: Fixed = Noise::<Fixed>::normal_of(&Triangular, u1, b >> 8);
        lemma_spread(z, std);
        assert(-0x1_0000_0000 <= centres[c][j].raw <= 0x1_0000_0000);
        assert(row[j] == centres[c][j].plus_of(std.times_of(z)));
    }
}

/// The windows of a query workload lie between zero and one and are as wide as was
/// asked for.
pub proof fn lemma_windows(seed: u64, sel: Fixed, i: nat)
    requires
        0 <= sel.raw <= 0x1_0000,
    ensures
        ({
            let start = window_start(seed, sel, i);
            let end = start.plus_of(sel);
            &&& 0 <= start.raw
            &&& end.raw == start.raw + sel.raw
            &&& end.raw <= 0x1_0000
        }),
{
    let draw = crate::segment_rangehnsw::dist::lcg_after(
        crate::segment_rangehnsw::samples::first_state(seed),
        i + 1,
    );
    crate::noise::lemma_top24(draw);
    let u = unit::<Fixed>(draw);
    assert(0 <= u.raw < 0x1_0000);
    assert(whole::<Fixed>(1).raw == 0x1_0000);
    let rest = whole::<Fixed>(1).minus_of(sel);
    assert(rest.raw == 0x1_0000 - sel.raw);
    let p = u.raw * rest.raw;
    assert(0 <= p <= 0x1_0000 * rest.raw) by (nonlinear_arith)
        requires
            p == u.raw * rest.raw,
            0 <= u.raw <= 0x1_0000,
            rest.raw >= 0,
    ;
    lemma_times(u, rest);
}

/// A query over attributes that count the points asks for the share of the points that
/// was asked for, and for at least one, as far as there are points.
pub proof fn lemma_query_range(
    points: Points<Fixed>,
    vec: Seq<Fixed>,
    lo: Fixed,
    range_frac: Fixed,
    q: Query<Fixed>,
)
    requires
        points.query_from(vec, lo, range_frac, q),
        0 < points.points@.len() <= 0x7FFF_FFFF,
        0 <= range_frac.raw <= 0x1_0000,
        0 <= lo.raw <= 0x8000_0000_0000,
    ensures
        ({
            let n = points.points@.len();
            let share = n * range_frac.raw;
            &&& q.lo == lo
            &&& q.hi.raw <= 0x1_0000 * (n - 1)
            &&& q.hi.raw - q.lo.raw <= if share >= 0x1_0000 {
                share
            } else {
                0x1_0000
            }
            &&& q.hi.raw < 0x1_0000 * (n - 1) ==> q.hi.raw - q.lo.raw == if share >= 0x1_0000 {
                share
            } else {
                0x1_0000
            }
        }),
{
    let n = points.points@.len();
    let w = whole::<Fixed>(n as u64);
    assert(w.raw == n * 0x1_0000);
    let share = n * range_frac.raw;
    assert(w.raw * range_frac.raw == 0x1_0000 * share) by (nonlinear_arith)
        requires
            w.raw == n * 0x1_0000,
            share == n * range_frac.raw,
    ;
    assert(0 <= share <= 0x1_0000 * n) by (nonlinear_arith)
        requires
            share == n * range_frac.raw,
            0 <= range_frac.raw <= 0x1_0000,
    ;
    lemma_times(w, range_frac);
    assert(whole::<Fixed>(1).raw == 0x1_0000);
}

/// A vector of the workload for reverse neighbours lies within one from a centre, and a
/// hub is such a vector, scaled up; the centres lie within two from the origin.
pub proof fn lemma_hub_vectors(gen: GenSpec<Fixed>, i: int, d: int)
    requires
        0 <= i < gen.n,
        0 <= d < gen.dim,
        gen.n_clusters > 0,
        0 <= gen.hub_scale.raw <= 0x1_0000_0000,
    ensures
        ({
            let centres = cluster_centres(Triangular, gen);
            let x = vectors_of(Triangular, gen)[i][d].raw;
            exists|c: int, v: Fixed|
                {
                    &&& 0 <= c < centres.len()
                    &&& -0x2_0000 <= centres[c][d].raw <= 0x2_0000
                    &&& -0x1_0000 <= #[trigger] gap_between(v, centres[c][d]) <= 0x1_0000
                    &&& !is_hub(gen, i) ==> x == v.raw
                    &&& is_hub(gen, i) ==> -0x1_0000 < 0x1_0000 * x - v.raw * gen.hub_scale.raw
                        < 0x1_0000
                }
        }),
{
    let centres = cluster_centres(Triangular, gen);
    let at = vector_draw(gen, i);
    let c = (splitmix_draw(gen.seed, at) as usize) as int % gen.n_clusters as int;
    assert(0 <= c < centres.len());
    let two = whole::<Fixed>(2);
    assert(two.raw == 0x2_0000);
    let dim = gen.dim as nat;
    let from = (2 * (c * dim + d)) as nat;
    lemma_hub_sample(gen.seed, from);
    lemma_spread(crate::rknn_verified::dataset::normal_at(Triangular, gen.seed, from), two);
    let here = (at + 1 + 2 * d) as nat;
    lemma_hub_sample(gen.seed, here);
    let v = near_centre(Triangular, gen, centres, at)[d];
    assert(-0x1_0000 <= gap_between(v, centres[c][d]) <= 0x1_0000);
    let p = v.raw * gen.hub_scale.raw;
    assert(-0x3_0000 * 0x1_0000_0000 <= p <= 0x3_0000 * 0x1_0000_0000) by (nonlinear_arith)
        requires
            p == v.raw * gen.hub_scale.raw,
            -0x3_0000 <= v.raw <= 0x3_0000,
            0 <= gen.hub_scale.raw <= 0x1_0000_0000,
    ;
    lemma_times(v, gen.hub_scale);
}

/// How far a component lies from another one.
pub open spec fn gap_between(v: Fixed, c: Fixed) -> int {
    v.raw - c.raw
}

proof fn lemma_hub_sample(seed: u64, at: nat)
    ensures
        -0x1_0000 <= crate::rknn_verified::dataset::normal_at::<Fixed, Triangular>(
            Triangular,
            seed,
            at,
        ).raw < 0x1_0000,
{
    let a = splitmix_draw(seed, at);
    let b = splitmix_draw(seed, at + 1);
    crate::noise::lemma_top24(a);
    crate::noise::lemma_top24(b);
    lemma_triangular(top24(a), top24(b));
}

/// The entries of a base lie within one from its shift, and queries that are shifted the
/// other way within one from the opposite of theirs.
pub proof fn lemma_generated(
    s: u64,
    first: nat,
    count: nat,
    dim: nat,
    shift: Fixed,
    up: bool,
    i: int,
    d: int,
)
    requires
        0 <= i < count,
        0 <= d < dim,
        -0x4000_0000_0000 <= shift.raw <= 0x4000_0000_0000,
    ensures
        ({
            let x = generated(Triangular, s, first, count, dim, shift, up)[i][d].raw;
            let centre = if up {
                shift.raw as int
            } else {
                -shift.raw
            };
            -0x1_0000 <= x - centre <= 0x1_0000
        }),
{
    let at = ((first + i) * dim + d) as nat;
    let a = crate::roargraph::xorshift_draw(s, 2 * at);
    let b = crate::roargraph::xorshift_draw(s, 2 * at + 1);
    crate::noise::lemma_top24(a);
    crate::noise::lemma_top24(b);
    lemma_triangular(top24(a), top24(b));
}

} // verus!
