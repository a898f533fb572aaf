//! Deterministic synthetic dataset generation.

use vstd::prelude::*;

use crate::noise::{top53, upper53, FineNoise};
use crate::scalar::{whole, Scalar};
use crate::table::rows;

verus! {

/// The state that follows `s`.
pub open spec fn lcg_step(s: u64) -> u64 {
    s.wrapping_mul(6_364_136_223_846_793_005).wrapping_add(1_442_695_040_888_963_407)
}

/// Self-contained linear congruential generator.
pub struct Lcg {
    state: u64,
}

impl View for Lcg {
    type V = u64;

    closed spec fn view(&self) -> u64 {
        self.state
    }
}

/// The value in `[lo, hi)` that a draw selects, or `lo` where the range is
/// empty.
pub open spec fn in_range_of(draw: u64, lo: usize, hi: usize) -> int {
    lo + (draw as usize) as int % (if hi - lo >= 1 { hi - lo } else { 1 })
}

impl Lcg {
    /// A generator whose first state is a masked `seed`.
    pub fn new(seed: u64) -> (r: Self)
        ensures
            r@ == lcg_seeded(seed),
    {
        Self { state: seed ^ 0x51ed_beef_cafe_1234 }
    }

    /// The next state, which is also the draw.
    pub fn next_u64(&mut self) -> (r: u64)
        ensures
            final(self)@ == lcg_step(old(self)@),
            r == final(self)@,
    {
        self.state = self.state.wrapping_mul(6_364_136_223_846_793_005).wrapping_add(
            1_442_695_040_888_963_407,
        );
        self.state
    }

    /// A draw from `[lo, hi)`; `lo` itself where the two are equal.
    pub fn next_range(&mut self, lo: usize, hi: usize) -> (r: usize)
        requires
            lo <= hi,
        ensures
            final(self)@ == lcg_step(old(self)@),
            r == in_range_of(final(self)@, lo, hi),
            lo < hi ==> lo <= r < hi,
            lo == hi ==> r == lo,
    {
        let span: usize = hi - lo;
        let m: usize = if span >= 1 { span } else { 1 };
        let x: usize = self.next_u64() as usize;
        lo + x % m
    }

    /// A uniform draw from [0, 1), as its numerator over 2^53.
    pub fn next_f64(&mut self) -> (r: u64)
        ensures
            final(self)@ == lcg_step(old(self)@),
            r == top53(final(self)@),
            r < 0x20_0000_0000_0000,
    {
        upper53(self.next_u64())
    }

    /// A sample of `noise`, from two uniform draws.
    pub fn next_normal<R, N: FineNoise<R>>(&mut self, noise: &N) -> (r: R)
        ensures
            final(self)@ == lcg_after(old(self)@, 2),
            r == normal_at(*noise, old(self)@, 0),
    {
        proof {
            reveal_with_fuel(lcg_after, 3);
        }
        let u1: u64 = self.next_f64();
        let u2: u64 = self.next_f64();
        noise.fine_normal(u1, u2)
    }
}

/// The state after `n` draws.
pub open spec fn lcg_after(s: u64, n: nat) -> u64
    decreases n,
{
    if n == 0 {
        s
    } else {
        lcg_step(lcg_after(s, (n - 1) as nat))
    }
}

/// The state that a seed stands for.
pub open spec fn lcg_seeded(seed: u64) -> u64 {
    seed ^ 0x51ed_beef_cafe_1234
}

/// Draws behind the first `n` are those of the state after `n` draws.
pub proof fn lemma_lcg_after(s: u64, n: nat, i: nat)
    ensures
        lcg_after(lcg_after(s, n), i) == lcg_after(s, n + i),
    decreases i,
{
    if i > 0 {
        lemma_lcg_after(s, n, (i - 1) as nat);
    }
}

/// A sample of `noise` from draws `at` and `at + 1` of a generator in state `s`.
pub open spec fn normal_at<R, N: FineNoise<R>>(noise: N, s: u64, at: nat) -> R {
    noise.fine_normal_of(top53(lcg_after(s, at + 1)), top53(lcg_after(s, at + 2)))
}

/// What a dataset is generated from.
#[derive(Clone, Debug)]
pub struct DatasetConfig<R> {
    pub n_vectors: usize,
    pub dims: usize,
    pub n_queries: usize,
    pub n_clusters: usize,
    /// The spread of a cluster.
    pub sigma: R,
    /// The spread of the cluster centres.
    pub center_sigma: R,
    pub seed: u64,
}

impl<R: Scalar> Default for DatasetConfig<R> {
    fn default() -> (r: Self)
        ensures
            r.n_vectors == 20_000,
            r.dims == 64,
            r.n_queries == 500,
            r.n_clusters == 64,
            r.sigma == whole::<R>(1),
            r.center_sigma == whole::<R>(6),
            r.seed == 0x50A5_0000_ABCD_1234,
    {
        DatasetConfig {
            n_vectors: 20_000,
            dims: 64,
            n_queries: 500,
            n_clusters: 64,
            sigma: R::ratio(1, 1),
            center_sigma: R::ratio(6, 1),
            seed: 0x50A5_0000_ABCD_1234,
        }
    }
}

/// A dataset.
pub struct Dataset<R> {
    pub config: DatasetConfig<R>,
    pub vectors: Vec<Vec<R>>,
    pub queries: Vec<Vec<R>>,
}

/// The centres of the clusters. Each component takes two draws.
pub open spec fn centres_of<R: Scalar, N: FineNoise<R>>(
    noise: N,
    config: DatasetConfig<R>,
) -> Seq<Seq<R>> {
    let dims = config.dims as nat;
    let s = lcg_seeded(config.seed);
    Seq::new(
        config.n_clusters as nat,
        |c: int|
            Seq::new(
                dims,
                |d: int|
                    normal_at(noise, s, (2 * (c * dims + d)) as nat).times_of(config.center_sigma),
            ),
    )
}

/// Vectors near centres that are drawn. Each takes one draw for the centre and
/// two for each component, from a generator in state `s`.
pub open spec fn around_centres<R: Scalar, N: FineNoise<R>>(
    noise: N,
    config: DatasetConfig<R>,
    centres: Seq<Seq<R>>,
    s: u64,
    n: nat,
) -> Seq<Seq<R>> {
    Seq::new(
        n,
        |i: int|
            {
                let at = (i * (2 * config.dims + 1)) as nat;
                let c = in_range_of(lcg_after(s, at + 1), 0, config.n_clusters);
                Seq::new(
                    config.dims as nat,
                    |d: int|
                        centres[c][d].plus_of(
                            normal_at(noise, s, (at + 1 + 2 * d) as nat).times_of(config.sigma),
                        ),
                )
            },
    )
}

/// Draws vectors near the centres.
fn draw_around<R: Scalar, N: FineNoise<R>>(
    noise: &N,
    config: &DatasetConfig<R>,
    centres: &Vec<Vec<R>>,
    seed: u64,
    n: usize,
) -> (r: Vec<Vec<R>>)
    requires
        config.n_clusters > 0 || n == 0,
        centres@.len() == config.n_clusters,
        forall|c: int| 0 <= c < centres@.len() ==> (#[trigger] centres@[c])@.len() == config.dims,
    ensures
        rows(r@) == around_centres(*noise, *config, rows(centres@), lcg_seeded(seed), n as nat),
{
    let ghost s = lcg_seeded(seed);
    let ghost all = around_centres(*noise, *config, rows(centres@), s, n as nat);
    let mut rng = Lcg::new(seed);
    let mut r: Vec<Vec<R>> = Vec::new();
    let mut i: usize = 0;
    assert(0 * (2 * config.dims + 1) == 0);
    while i < n
        invariant
            i <= n,
            config.n_clusters > 0 || n == 0,
            centres@.len() == config.n_clusters,
            forall|c: int|
                0 <= c < centres@.len() ==> (#[trigger] centres@[c])@.len() == config.dims,
            all == around_centres(*noise, *config, rows(centres@), s, n as nat),
            rng@ == lcg_after(s, (i * (2 * config.dims + 1)) as nat),
            rows(r@) =~= all.take(i as int),
        decreases n - i,
    {
        let ghost at = (i * (2 * config.dims + 1)) as nat;
        let c: usize = rng.next_range(0, config.n_clusters);
        let centre: &Vec<R> = &centres[c];
        assert(rows(centres@)[c as int] == centre@);
        let mut v: Vec<R> = Vec::new();
        let mut d: usize = 0;
        while d < config.dims
            invariant
                d <= config.dims,
                i < n,
                at == (i * (2 * config.dims + 1)) as nat,
                centre@.len() == config.dims,
                centre@ == rows(centres@)[in_range_of(
                    lcg_after(s, at + 1),
                    0,
                    config.n_clusters,
                )],
                all == around_centres(*noise, *config, rows(centres@), s, n as nat),
                rng@ == lcg_after(s, at + 1 + 2 * d as nat),
                v@ =~= all[i as int].take(d as int),
            decreases config.dims - d,
        {
            proof {
                lemma_lcg_after(s, at + 1 + 2 * d as nat, 1);
                lemma_lcg_after(s, at + 1 + 2 * d as nat, 2);
            }
            let z = rng.next_normal(noise);
            assert(z == normal_at(*noise, s, at + 1 + 2 * d as nat));
            v.push(centre[d].plus(z.times(config.sigma)));
            d += 1;
        }
        proof {
            assert(all[i as int].take(config.dims as int) =~= all[i as int]);
            assert((i + 1) * (2 * config.dims + 1) == i * (2 * config.dims + 1) + (2 * config.dims
                + 1)) by (nonlinear_arith);
            assert(i * (2 * config.dims + 1) >= 0) by (nonlinear_arith);
        }
        let ghost done = rows(r@);
        assert(v@ == all[i as int]);
        r.push(v);
        assert(rows(r@) =~= done.push(v@));
        i += 1;
    }
    assert(all.take(n as int) =~= all);
    r
}

impl<R: Scalar> Dataset<R> {
    /// Generates vectors and queries around cluster centres. Centres, vectors and
    /// queries have generators of their own.
    pub fn generate<N: FineNoise<R>>(config: DatasetConfig<R>, noise: &N) -> (r: Self)
        requires
            config.n_clusters > 0 || (config.n_vectors == 0 && config.n_queries == 0),
        ensures
            r.config == config,
            rows(r.vectors@) == around_centres(
                *noise,
                config,
                centres_of(*noise, config),
                lcg_seeded(config.seed.wrapping_add(0xAAAA_5555)),
                config.n_vectors as nat,
            ),
            rows(r.queries@) == around_centres(
                *noise,
                config,
                centres_of(*noise, config),
                lcg_seeded(config.seed.wrapping_add(0x7777_3333)),
                config.n_queries as nat,
            ),
    {
        let ghost s = lcg_seeded(config.seed);
        let ghost nd = config.dims as nat;
        let ghost all = centres_of(*noise, config);
        let mut rng = Lcg::new(config.seed);
        let mut centres: Vec<Vec<R>> = Vec::new();
        let mut c: usize = 0;
        assert(2 * (0 * nd) == 0);
        while c < config.n_clusters
            invariant
                c <= config.n_clusters,
                nd == config.dims,
                s == lcg_seeded(config.seed),
                all == centres_of(*noise, config),
                rng@ == lcg_after(s, 2 * (c as nat * nd)),
                centres@.len() == c,
                forall|x: int|
                    0 <= x < c ==> (#[trigger] centres@[x])@ == all[x] && centres@[x]@.len() == nd,
            decreases config.n_clusters - c,
        {
            let mut v: Vec<R> = Vec::new();
            let mut d: usize = 0;
            while d < config.dims
                invariant
                    d <= config.dims,
                    c < config.n_clusters,
                    nd == config.dims,
                    s == lcg_seeded(config.seed),
                    all == centres_of(*noise, config),
                    rng@ == lcg_after(s, 2 * (c as nat * nd + d as nat)),
                    v@ =~= all[c as int].take(d as int),
                decreases config.dims - d,
            {
                proof {
                    let at = 2 * (c as nat * nd + d as nat);
                    lemma_lcg_after(s, at, 1);
                    lemma_lcg_after(s, at, 2);
                }
                let z = rng.next_normal(noise);
                v.push(z.times(config.center_sigma));
                d += 1;
            }
            assert(all[c as int].take(nd as int) =~= all[c as int]);
            assert((c + 1) as nat * nd == c as nat * nd + nd) by (nonlinear_arith);
            centres.push(v);
            c += 1;
        }
        assert(rows(centres@) =~= all);
        let vectors = draw_around(
            noise,
            &config,
            &centres,
            config.seed.wrapping_add(0xAAAA_5555),
            config.n_vectors,
        );
        let queries = draw_around(
            noise,
            &config,
            &centres,
            config.seed.wrapping_add(0x7777_3333),
            config.n_queries,
        );
        Dataset { config, vectors, queries }
    }
}

} // verus!
