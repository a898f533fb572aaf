//! Reproducible synthetic datasets with a controlled share of hub points.

use vstd::prelude::*;

use crate::noise::{lemma_top24, top24, upper24, Noise};
use crate::rknn_verified::{FlatL2Index, NnIndex};
use crate::scalar::{is_less, less, whole, Scalar};
use crate::table::rows;

verus! {

/// Increment of the SplitMix64 state.
pub const GAMMA: u64 = 0x9E37_79B9_7F4A_7C15;

/// Deterministic 64-bit SplitMix generator.
pub struct SplitMix64 {
    state: u64,
}

/// The state of a generator seeded with `seed` after `i` draws.
pub open spec fn splitmix_state(seed: u64, i: nat) -> u64
    decreases i,
{
    if i == 0 {
        seed
    } else {
        splitmix_state(seed, (i - 1) as nat).wrapping_add(GAMMA)
    }
}

/// The output that SplitMix64 derives from a state.
pub open spec fn splitmix_mix(state: u64) -> u64 {
    let a = (state ^ (state >> 30)).wrapping_mul(0xBF58_476D_1CE4_E5B9u64);
    let b = (a ^ (a >> 27)).wrapping_mul(0x94D0_49BB_1331_11EBu64);
    b ^ (b >> 31)
}

/// Draw number `i`, counted from 0, of a generator seeded with `seed`.
pub open spec fn splitmix_draw(seed: u64, i: nat) -> u64 {
    splitmix_mix(splitmix_state(seed, i + 1))
}

impl View for SplitMix64 {
    type V = u64;

    closed spec fn view(&self) -> u64 {
        self.state
    }
}

impl Clone for SplitMix64 {
    fn clone(&self) -> (r: Self)
        ensures
            r@ == self@,
    {
        Self { state: self.state }
    }
}

impl SplitMix64 {
    /// A generator that starts at `seed`.
    pub fn new(seed: u64) -> (r: Self)
        ensures
            r@ == seed,
    {
        Self { state: seed }
    }

    /// The next 64-bit draw.
    pub fn next_u64(&mut self) -> (r: u64)
        ensures
            final(self)@ == old(self)@.wrapping_add(GAMMA),
            r == splitmix_mix(final(self)@),
    {
        self.state = self.state.wrapping_add(0x9E37_79B9_7F4A_7C15);
        let mut z: u64 = self.state;
        z = (z ^ (z >> 30)).wrapping_mul(0xBF58_476D_1CE4_E5B9);
        z = (z ^ (z >> 27)).wrapping_mul(0x94D0_49BB_1331_11EB);
        z ^ (z >> 31)
    }

    /// A uniform draw from [0, 1), as its numerator over 2^24.
    pub fn next_f32(&mut self) -> (r: u32)
        ensures
            final(self)@ == old(self)@.wrapping_add(GAMMA),
            r == top24(splitmix_mix(final(self)@)),
            r < 0x100_0000,
    {
        upper24(self.next_u64())
    }

    /// A sample of `noise`, from two uniform draws.
    pub fn next_normal<R, N: Noise<R>>(&mut self, noise: &N) -> (r: R)
        ensures
            final(self)@ == splitmix_state(old(self)@, 2),
            r == normal_at(*noise, old(self)@, 0),
    {
        proof {
            reveal_with_fuel(splitmix_state, 3);
        }
        let u1: u32 = self.next_f32();
        let u2: u32 = self.next_f32();
        noise.normal(u1, u2)
    }
}

/// A sample of `noise` from draws `at` and `at + 1`.
pub open spec fn normal_at<R, N: Noise<R>>(noise: N, seed: u64, at: nat) -> R {
    noise.normal_of(top24(splitmix_draw(seed, at)), top24(splitmix_draw(seed, at + 1)))
}

/// Draws behind the first `n` are those of the state after `n` draws.
pub proof fn lemma_splitmix_state(seed: u64, n: nat, i: nat)
    ensures
        splitmix_state(splitmix_state(seed, n), i) == splitmix_state(seed, n + i),
    decreases i,
{
    if i > 0 {
        lemma_splitmix_state(seed, n, (i - 1) as nat);
    }
}

/// What a dataset is generated from.
#[derive(Clone, Debug)]
pub struct GenSpec<R> {
    /// The number of vectors.
    pub n: usize,
    /// The number of components.
    pub dim: usize,
    /// The number of clusters.
    pub n_clusters: usize,
    /// The share of hubs.
    pub hub_frac: R,
    /// How many times farther from the origin a hub lies.
    pub hub_scale: R,
    /// The seed of the generator.
    pub seed: u64,
}

impl<R: Scalar> Default for GenSpec<R> {
    fn default() -> (r: Self)
        ensures
            r.n == 5_000,
            r.dim == 64,
            r.n_clusters == 16,
            r.hub_frac == R::ratio_of(5, 100),
            r.hub_scale == R::ratio_of(35, 10),
            r.seed == 0xC0FFEE,
    {
        GenSpec {
            n: 5_000,
            dim: 64,
            n_clusters: 16,
            hub_frac: R::ratio(5, 100),
            hub_scale: R::ratio(35, 10),
            seed: 0xC0FFEE,
        }
    }
}

/// A dataset: an index, queries for it, and which vectors are hubs.
pub struct Generated<R> {
    pub index: FlatL2Index<R>,
    pub queries: Vec<Vec<R>>,
    pub hub_ids: Vec<usize>,
}

/// The centres of the clusters. Each component takes two draws.
pub open spec fn cluster_centres<R: Scalar, N: Noise<R>>(noise: N, spec: GenSpec<R>) -> Seq<Seq<R>> {
    let dim = spec.dim as nat;
    Seq::new(
        spec.n_clusters as nat,
        |c: int|
            Seq::new(
                dim,
                |d: int|
                    whole::<R>(2).times_of(
                        normal_at(noise, spec.seed, (2 * (c * dim + d)) as nat),
                    ),
            ),
    )
}

/// A vector near the centre that draw `at` selects. Each component takes two of
/// the draws behind it.
pub open spec fn near_centre<R: Scalar, N: Noise<R>>(
    noise: N,
    spec: GenSpec<R>,
    centres: Seq<Seq<R>>,
    at: nat,
) -> Seq<R> {
    let c = (splitmix_draw(spec.seed, at) as usize) as int % spec.n_clusters as int;
    Seq::new(
        spec.dim as nat,
        |d: int| centres[c][d].plus_of(normal_at(noise, spec.seed, (at + 1 + 2 * d) as nat)),
    )
}

/// The first draw that vector `i` takes.
pub open spec fn vector_draw<R>(spec: GenSpec<R>, i: int) -> nat {
    (2 * (spec.n_clusters * spec.dim) + i * (2 * spec.dim + 2)) as nat
}

/// Vector `i` is a hub.
pub open spec fn is_hub<R: Scalar>(spec: GenSpec<R>, i: int) -> bool {
    less(
        R::ratio_of(
            top24(splitmix_draw(spec.seed, vector_draw(spec, i) + 1 + 2 * spec.dim as nat)) as u64,
            0x100_0000,
        ),
        spec.hub_frac,
    )
}

/// The vectors. Hubs are moved away from the origin.
pub open spec fn vectors_of<R: Scalar, N: Noise<R>>(noise: N, spec: GenSpec<R>) -> Seq<Seq<R>> {
    let centres = cluster_centres(noise, spec);
    Seq::new(
        spec.n as nat,
        |i: int|
            {
                let v = near_centre(noise, spec, centres, vector_draw(spec, i));
                if is_hub(spec, i) {
                    Seq::new(v.len(), |d: int| v[d].times_of(spec.hub_scale))
                } else {
                    v
                }
            },
    )
}

/// The hubs among the first `n` vectors.
pub open spec fn hubs_of<R: Scalar>(spec: GenSpec<R>, n: nat) -> Seq<usize>
    decreases n,
{
    if n == 0 {
        Seq::empty()
    } else {
        let rest = hubs_of(spec, (n - 1) as nat);
        if is_hub(spec, n - 1) {
            rest.push((n - 1) as usize)
        } else {
            rest
        }
    }
}

/// The queries.
pub open spec fn queries_of<R: Scalar, N: Noise<R>>(
    noise: N,
    spec: GenSpec<R>,
    n_queries: nat,
) -> Seq<Seq<R>> {
    let centres = cluster_centres(noise, spec);
    Seq::new(
        n_queries,
        |j: int|
            near_centre(
                noise,
                spec,
                centres,
                vector_draw(spec, spec.n as int) + (j * (2 * spec.dim + 1)) as nat,
            ),
    )
}

/// Draws a vector near a centre.
fn draw_near<R: Scalar, N: Noise<R>>(
    rng: &mut SplitMix64,
    noise: &N,
    spec: &GenSpec<R>,
    centres: &Vec<Vec<R>>,
    Ghost(at): Ghost<nat>,
) -> (v: Vec<R>)
    requires
        old(rng)@ == splitmix_state(spec.seed, at),
        spec.n_clusters > 0,
        centres@.len() == spec.n_clusters,
        forall|c: int| 0 <= c < centres@.len() ==> (#[trigger] centres@[c])@.len() == spec.dim,
    ensures
        v@ == near_centre(*noise, *spec, rows(centres@), at),
        final(rng)@ == splitmix_state(spec.seed, at + 1 + 2 * spec.dim as nat),
{
    let ghost all = near_centre(*noise, *spec, rows(centres@), at);
    let ci: usize = (rng.next_u64() as usize) % spec.n_clusters;
    let centre: &Vec<R> = &centres[ci];
    assert(rows(centres@)[ci as int] == centre@);
    let mut v: Vec<R> = Vec::new();
    let mut d: usize = 0;
    while d < spec.dim
        invariant
            d <= spec.dim,
            centre@.len() == spec.dim,
            all == near_centre(*noise, *spec, rows(centres@), at),
            centre@ == rows(centres@)[(splitmix_draw(spec.seed, at) as usize) as int
                % spec.n_clusters as int],
            rng@ == splitmix_state(spec.seed, at + 1 + 2 * d as nat),
            v@ =~= all.take(d as int),
        decreases spec.dim - d,
    {
        proof {
            lemma_splitmix_state(spec.seed, at + 1 + 2 * d as nat, 1);
            lemma_splitmix_state(spec.seed, at + 1 + 2 * d as nat, 2);
        }
        let z = rng.next_normal(noise);
        assert(z == normal_at(*noise, spec.seed, at + 1 + 2 * d as nat));
        v.push(centre[d].plus(z));
        d += 1;
    }
    assert(all.take(spec.dim as int) =~= all);
    v
}

/// Generates vectors around cluster centres, some of them hubs, and queries from
/// the same clusters.
pub fn generate<R: Scalar, N: Noise<R>>(spec: &GenSpec<R>, n_queries: usize, noise: &N) -> (r:
    Generated<R>)
    requires
        spec.n_clusters > 0 || (spec.n == 0 && n_queries == 0),
    ensures
        r.index.valid(),
        r.index.width() == spec.dim,
        r.index.points() == vectors_of(*noise, *spec),
        rows(r.queries@) == queries_of(*noise, *spec, n_queries as nat),
        r.hub_ids@ == hubs_of(*spec, spec.n as nat),
{
    let ghost seed = spec.seed;
    let ghost nd = spec.dim as nat;
    let mut rng = SplitMix64::new(spec.seed);
    let ghost all = cluster_centres(*noise, *spec);
    let mut centres: Vec<Vec<R>> = Vec::new();
    let mut c: usize = 0;
    assert(2 * (0 * nd) == 0);
    while c < spec.n_clusters
        invariant
            c <= spec.n_clusters,
            seed == spec.seed,
            nd == spec.dim,
            all == cluster_centres(*noise, *spec),
            rng@ == splitmix_state(seed, 2 * (c as nat * nd)),
            centres@.len() == c,
            forall|x: int|
                0 <= x < c ==> (#[trigger] centres@[x])@ == all[x] && centres@[x]@.len() == nd,
        decreases spec.n_clusters - c,
    {
        let mut v: Vec<R> = Vec::new();
        let mut d: usize = 0;
        while d < spec.dim
            invariant
                d <= spec.dim,
                c < spec.n_clusters,
                seed == spec.seed,
                nd == spec.dim,
                all == cluster_centres(*noise, *spec),
                rng@ == splitmix_state(seed, 2 * (c as nat * nd + d as nat)),
                v@ =~= all[c as int].take(d as int),
            decreases spec.dim - d,
        {
            proof {
                let at = 2 * (c as nat * nd + d as nat);
                lemma_splitmix_state(seed, at, 1);
                lemma_splitmix_state(seed, at, 2);
            }
            let z = rng.next_normal(noise);
            v.push(R::ratio(2, 1).times(z));
            d += 1;
        }
        assert(all[c as int].take(nd as int) =~= all[c as int]);
        assert((c + 1) as nat * nd == c as nat * nd + nd) by (nonlinear_arith);
        centres.push(v);
        c += 1;
    }
    assert(rows(centres@) =~= all);
    let ghost vectors = vectors_of(*noise, *spec);
    let mut points: Vec<Vec<R>> = Vec::new();
    let mut hub_ids: Vec<usize> = Vec::new();
    let mut i: usize = 0;
    assert(vector_draw(*spec, 0) == 2 * (spec.n_clusters as nat * nd)) by {
        assert(0 * (2 * spec.dim + 2) == 0);
    }
    while i < spec.n
        invariant
            i <= spec.n,
            spec.n_clusters > 0 || (spec.n == 0 && n_queries == 0),
            seed == spec.seed,
            nd == spec.dim,
            all == cluster_centres(*noise, *spec),
            rows(centres@) == all,
            centres@.len() == spec.n_clusters,
            forall|x: int| 0 <= x < centres@.len() ==> (#[trigger] centres@[x])@.len() == spec.dim,
            vectors == vectors_of(*noise, *spec),
            rng@ == splitmix_state(seed, vector_draw(*spec, i as int)),
            points@.len() == i,
            forall|x: int|
                0 <= x < i ==> (#[trigger] points@[x])@ == vectors[x] && points@[x]@.len() == nd,
            hub_ids@ == hubs_of(*spec, i as nat),
        decreases spec.n - i,
    {
        let ghost at = vector_draw(*spec, i as int);
        let mut v = draw_near(&mut rng, noise, spec, &centres, Ghost(at));
        let ghost raw = v@;
        let u: u32 = rng.next_f32();
        let hub: bool = is_less(R::ratio(u as u64, 0x100_0000), spec.hub_frac);
        assert(hub == is_hub(*spec, i as int));
        if hub {
            let mut d: usize = 0;
            while d < spec.dim
                invariant
                    d <= spec.dim,
                    raw.len() == spec.dim,
                    v@.len() == spec.dim,
                    forall|x: int|
                        0 <= x < d ==> #[trigger] v@[x] == raw[x].times_of(spec.hub_scale),
                    forall|x: int| d <= x < spec.dim ==> #[trigger] v@[x] == raw[x],
                decreases spec.dim - d,
            {
                let x = v[d].times(spec.hub_scale);
                v.set(d, x);
                d += 1;
            }
            hub_ids.push(i);
        }
        proof {
            assert(v@ =~= vectors[i as int]);
            assert(vector_draw(*spec, i + 1) == at + 2 * nd + 2) by {
                assert((i + 1) * (2 * spec.dim + 2) == i * (2 * spec.dim + 2) + (2 * spec.dim + 2))
                    by (nonlinear_arith);
            }
        }
        points.push(v);
        i += 1;
    }
    let index = FlatL2Index::from_rows(spec.dim, points.as_slice());
    assert(rows(points@) =~= vectors);
    let ghost wanted = queries_of(*noise, *spec, n_queries as nat);
    let mut queries: Vec<Vec<R>> = Vec::new();
    let mut j: usize = 0;
    let ghost base = vector_draw(*spec, spec.n as int);
    assert(0 * (2 * spec.dim + 1) == 0);
    while j < n_queries
        invariant
            j <= n_queries,
            spec.n_clusters > 0 || (spec.n == 0 && n_queries == 0),
            seed == spec.seed,
            nd == spec.dim,
            all == cluster_centres(*noise, *spec),
            rows(centres@) == all,
            centres@.len() == spec.n_clusters,
            forall|x: int| 0 <= x < centres@.len() ==> (#[trigger] centres@[x])@.len() == spec.dim,
            wanted == queries_of(*noise, *spec, n_queries as nat),
            base == vector_draw(*spec, spec.n as int),
            rng@ == splitmix_state(seed, base + (j * (2 * spec.dim + 1)) as nat),
            rows(queries@) =~= wanted.take(j as int),
        decreases n_queries - j,
    {
        let ghost at = base + (j * (2 * spec.dim + 1)) as nat;
        let v = draw_near(&mut rng, noise, spec, &centres, Ghost(at));
        proof {
            assert((j + 1) * (2 * spec.dim + 1) == j * (2 * spec.dim + 1) + (2 * spec.dim + 1))
                by (nonlinear_arith);
            assert(j * (2 * spec.dim + 1) >= 0) by (nonlinear_arith);
        }
        let ghost done = rows(queries@);
        assert(v@ == wanted[j as int]);
        queries.push(v);
        assert(rows(queries@) =~= done.push(v@));
        j += 1;
    }
    assert(wanted.take(n_queries as int) =~= wanted);
    Generated { index, queries, hub_ids }
}

/// The numbers of the hubs ascend, each of them is below `n`, and a number below
/// `n` is among them if and only if its vector is a hub.
pub proof fn lemma_hubs<R: Scalar>(spec: GenSpec<R>, n: nat)
    requires
        n <= usize::MAX,
    ensures
        forall|i: int, j: int|
            0 <= i < j < hubs_of(spec, n).len() ==> (#[trigger] hubs_of(spec, n)[i]) < (
            #[trigger] hubs_of(spec, n)[j]),
        forall|i: int| 0 <= i < hubs_of(spec, n).len() ==> (#[trigger] hubs_of(spec, n)[i]) < n,
        forall|id: usize| #[trigger] hubs_of(spec, n).contains(id) <==> id < n && is_hub(spec, id as int),
    decreases n,
{
    if n > 0 {
        let m = (n - 1) as nat;
        lemma_hubs(spec, m);
        let rest = hubs_of(spec, m);
        let now = hubs_of(spec, n);
        assert forall|i: int, j: int| 0 <= i < j < now.len() implies (#[trigger] now[i]) < (
        #[trigger] now[j]) by {
            if j < rest.len() {
                assert(rest[i] < rest[j]);
            } else {
                assert(rest[i] < m);
            }
        }
        assert forall|id: usize| #[trigger] now.contains(id) <==> id < n && is_hub(spec, id as int) by {
            if now.contains(id) {
                let i = choose|i: int| 0 <= i < now.len() && now[i] == id;
                if i < rest.len() {
                    assert(rest[i] == id);
                    assert(rest.contains(id));
                }
            }
            if id < n && is_hub(spec, id as int) {
                if id < m {
                    assert(rest.contains(id));
                    let i = choose|i: int| 0 <= i < rest.len() && rest[i] == id;
                    assert(now[i] == id);
                } else {
                    assert(now[rest.len() as int] == id);
                }
            }
        }
    }
}

/// With a share of zero or less no vector is a hub.
pub proof fn lemma_no_hubs<R: Scalar>(spec: GenSpec<R>, n: nat)
    requires
        !less(R::zero_of(), spec.hub_frac),
    ensures
        hubs_of(spec, n) == Seq::<usize>::empty(),
    decreases n,
{
    if n > 0 {
        lemma_no_hubs(spec, (n - 1) as nat);
        lemma_hub_draw(spec, n - 1);
    }
}

/// With a share of one or more every vector is a hub.
pub proof fn lemma_all_hubs<R: Scalar>(spec: GenSpec<R>, n: nat)
    requires
        !less(spec.hub_frac, whole::<R>(1)),
    ensures
        hubs_of(spec, n) == Seq::new(n, |i: int| i as usize),
    decreases n,
{
    if n > 0 {
        lemma_all_hubs(spec, (n - 1) as nat);
        lemma_hub_draw(spec, n - 1);
        assert(hubs_of(spec, n) =~= Seq::new(n, |i: int| i as usize));
    } else {
        assert(hubs_of(spec, n) =~= Seq::new(n, |i: int| i as usize));
    }
}

proof fn lemma_hub_draw<R: Scalar>(spec: GenSpec<R>, i: int)
    ensures
        !less(R::zero_of(), spec.hub_frac) ==> !is_hub(spec, i),
        !less(spec.hub_frac, whole::<R>(1)) ==> is_hub(spec, i),
{
    let draw = splitmix_draw(spec.seed, vector_draw(spec, i) + 1 + 2 * spec.dim as nat);
    let u = top24(draw) as u64;
    assert(u < 0x100_0000) by {
        lemma_top24(draw);
    }
    R::law_unit(u);
}

/// Datasets that differ only in the number of queries hold the same vectors and
/// the same hubs, and their queries agree as far as both go.
pub proof fn lemma_query_counts<R: Scalar, N: Noise<R>>(
    noise: N,
    spec: GenSpec<R>,
    a: Generated<R>,
    b: Generated<R>,
    n_a: nat,
    n_b: nat,
)
    requires
        a.index.points() == vectors_of(noise, spec),
        rows(a.queries@) == queries_of(noise, spec, n_a),
        a.hub_ids@ == hubs_of(spec, spec.n as nat),
        b.index.points() == vectors_of(noise, spec),
        rows(b.queries@) == queries_of(noise, spec, n_b),
        b.hub_ids@ == hubs_of(spec, spec.n as nat),
    ensures
        a.index.points() == b.index.points(),
        a.hub_ids@ == b.hub_ids@,
        forall|j: int|
            0 <= j < n_a && j < n_b ==> (#[trigger] a.queries@[j])@ == b.queries@[j]@,
{
    assert forall|j: int| 0 <= j < n_a && j < n_b implies (#[trigger] a.queries@[j])@
        == b.queries@[j]@ by {
        assert(rows(a.queries@).len() == n_a && rows(b.queries@).len() == n_b);
        assert(rows(a.queries@)[j] == a.queries@[j]@);
        assert(rows(b.queries@)[j] == b.queries@[j]@);
    }
}

} // verus!
