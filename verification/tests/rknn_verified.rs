//! Reverse-neighbour verified retrieval.

use ruvector::noise::Noise;
use ruvector::order;
use ruvector::rknn_verified::dataset::{generate, GenSpec, SplitMix64};
use ruvector::rknn_verified::evaluate::{accepts, evaluate, EvalResult};
use ruvector::rknn_verified::{
    sq_l2, FlatL2Index, NnIndex, NoisyAnn, RknnVerifier, VerifyMode,
};
use ruvector::scalar::Scalar;

#[derive(Clone, Copy, Debug, PartialEq, PartialOrd)]
struct F32(f32);

impl Scalar for F32 {
    fn zero() -> Self {
        F32(0.0)
    }
    fn infinity() -> Self {
        F32(f32::INFINITY)
    }
    fn ratio(num: u64, den: u64) -> Self {
        F32((num as f64 / den as f64) as f32)
    }
    fn plus(self, other: Self) -> Self {
        F32(self.0 + other.0)
    }
    fn minus(self, other: Self) -> Self {
        F32(self.0 - other.0)
    }
    fn times(self, other: Self) -> Self {
        F32(self.0 * other.0)
    }
    fn over(self, other: Self) -> Self {
        F32(self.0 / other.0)
    }
    fn sqrt(self) -> Self {
        F32(self.0.sqrt())
    }
    fn byte(self) -> u8 {
        self.0.round().clamp(0.0, 255.0) as u8
    }
    fn nearest(self) -> i64 {
        self.0.round() as i64
    }
    fn key(self) -> u64 {
        order::key(self.0.to_bits()).expect("not a number")
    }
    fn law_zero() {}
    fn law_unit(_u: u64) {}
}

#[allow(dead_code)]
fn wrap(xs: &[f32]) -> Vec<F32> {
    xs.iter().map(|&x| F32(x)).collect()
}

/// Normal samples by the transform of Box and Muller.
struct Normal;

impl Noise<F32> for Normal {
    fn normal(&self, u1: u32, u2: u32) -> F32 {
        let u1 = (u1 as f32 / (1u64 << 24) as f32).max(1e-9);
        let u2 = u2 as f32 / (1u64 << 24) as f32;
        let r = (-2.0 * u1.ln()).sqrt();
        let theta = 2.0 * std::f32::consts::PI * u2;
        F32(r * theta.cos())
    }
}

fn tiny_dataset() -> FlatL2Index<F32> {
    let rows: Vec<Vec<F32>> = (0..64)
        .map(|i| {
            let x = i as f32;
            wrap(&[x.sin(), x.cos(), (x * 0.5).sin(), (x * 0.5).cos()])
        })
        .collect();
    FlatL2Index::from_rows(4, &rows)
}

fn small_index() -> FlatL2Index<F32> {
    let rows: Vec<Vec<F32>> = (0..40)
        .map(|i| wrap(&[i as f32, (i * i) as f32 * 0.01]))
        .collect();
    FlatL2Index::from_rows(2, &rows)
}

#[test]
fn generate_is_reproducible() {
    let spec = GenSpec {
        n: 200,
        dim: 8,
        n_clusters: 4,
        hub_frac: F32(0.1),
        hub_scale: F32(3.0),
        seed: 7,
    };
    let a = generate(&spec, 5, &Normal);
    let b = generate(&spec, 5, &Normal);
    assert_eq!(a.queries.len(), b.queries.len());
    assert_eq!(a.hub_ids, b.hub_ids);
    for i in 0..5 {
        assert_eq!(a.queries[i], b.queries[i]);
    }
}

#[test]
fn hubs_have_higher_norm_than_average() {
    let spec: GenSpec<F32> = GenSpec::default();
    let gen = generate(&spec, 10, &Normal);
    if gen.hub_ids.is_empty() {
        return;
    }
    let norm = |v: &[F32]| v.iter().map(|x| x.0 * x.0).sum::<f32>().sqrt();
    let mean_all: f32 =
        (0..spec.n).map(|i| norm(gen.index.vector(i))).sum::<f32>() / spec.n as f32;
    let mean_hub: f32 = gen.hub_ids.iter().map(|&i| norm(gen.index.vector(i))).sum::<f32>()
        / gen.hub_ids.len() as f32;
    assert!(mean_hub > mean_all * 1.5, "hub norm {mean_hub} vs all {mean_all}");
}

#[test]
fn flat_search_returns_query_first() {
    let idx = tiny_dataset();
    let q = idx.vector(7).to_vec();
    let hits = idx.search(&q, 5);
    assert_eq!(hits[0].0, 7);
    assert!(hits[0].1 .0 < 1e-6);
    assert_eq!(hits.len(), 5);
}

#[test]
fn sq_l2_is_zero_for_equal() {
    let a = wrap(&[1.0, 2.0, 3.0]);
    assert!(sq_l2(&a, &a).0 < 1e-9);
}

#[test]
fn noisy_ann_reorders_but_stays_within_superset() {
    let idx = tiny_dataset();
    let noisy = NoisyAnn::new(&idx, 4, 42);
    let q = idx.vector(3).to_vec();
    let exact: Vec<usize> = idx.search(&q, 20).into_iter().map(|(i, _)| i).collect();
    let noisy_top: Vec<usize> = noisy.search(&q, 5).into_iter().map(|(i, _)| i).collect();
    for id in &noisy_top {
        assert!(exact.contains(id), "noisy id {id} not in exact top-20");
    }
}

#[test]
fn live_and_cached_agree_on_query_equal_to_dataset_point() {
    let idx = small_index();
    let live = RknnVerifier::new_live(&idx, 5, F32(1.0));
    let cached = RknnVerifier::new_cached(&idx, 5, F32(1.0));
    let q = idx.vector(3).to_vec();
    assert!(live.accepts(&q, 3));
    assert!(cached.accepts(&q, 3));
}

#[test]
fn cache_shape_matches_dataset_size() {
    let idx = small_index();
    let cached = RknnVerifier::new_cached(&idx, 4, F32(1.0));
    assert_eq!(cached.cache().unwrap().len(), 40);
    for (ids, _) in cached.cache().unwrap() {
        assert_eq!(ids.len(), 4);
    }
}

#[test]
fn verifier_strictly_reduces_or_preserves_candidates() {
    let spec = GenSpec {
        n: 300,
        dim: 8,
        n_clusters: 6,
        hub_frac: F32(0.1),
        hub_scale: F32(3.0),
        seed: 11,
    };
    let g = generate(&spec, 5, &Normal);
    let v = RknnVerifier::new_live(&g.index, 10, F32(1.0));
    for q in &g.queries {
        let cands = g.index.search(q, 20);
        let filtered = v.filter(q, &cands);
        assert!(filtered.len() <= cands.len());
    }
}

#[test]
fn splitmix_gives_the_known_stream() {
    let mut rng = SplitMix64::new(0);
    assert_eq!(rng.next_u64(), 0xE220_A839_7B1D_CDAF);
    assert_eq!(rng.next_u64(), 0x6E78_9E6A_A1B9_65F4);
    assert_eq!(rng.next_u64(), 0x06C4_5D18_8009_454F);
}

#[test]
fn splitmix_unit_draw_takes_the_upper_bits() {
    let mut rng = SplitMix64::new(0);
    assert_eq!(rng.next_f32(), 0xE2_20A8);
}

#[test]
fn exact_search_orders_by_distance_and_position() {
    let rows = vec![wrap(&[2.0]), wrap(&[1.0]), wrap(&[-1.0]), wrap(&[5.0])];
    let idx = FlatL2Index::from_rows(1, &rows);
    let hits = idx.search(&wrap(&[0.0]), 3);
    assert_eq!(hits, vec![(1, F32(1.0)), (2, F32(1.0)), (0, F32(4.0))]);
    assert_eq!(idx.search(&wrap(&[0.0]), 0), vec![]);
    assert_eq!(idx.search(&wrap(&[0.0]), 9).len(), 4);
}

#[test]
fn pushed_vectors_can_be_read_back() {
    let mut idx: FlatL2Index<F32> = FlatL2Index::new(2);
    assert_eq!(idx.len(), 0);
    idx.push(&wrap(&[1.0, 2.0]));
    idx.push(&wrap(&[3.0, 4.0]));
    assert_eq!(idx.len(), 2);
    assert_eq!(idx.dim(), 2);
    assert_eq!(idx.vector(1), &wrap(&[3.0, 4.0])[..]);
}

#[test]
fn both_modes_accept_the_same_indexed_points() {
    let idx = small_index();
    let live = RknnVerifier::new_live(&idx, 5, F32(1.15));
    let cached = RknnVerifier::new_cached(&idx, 5, F32(1.15));
    assert_eq!(live.mode(), VerifyMode::Live);
    assert_eq!(cached.mode(), VerifyMode::Cached);
    assert_eq!(live.k_rev(), 5);
    assert_eq!(live.slack(), F32(1.15));
    assert!(live.cache().is_none());
    for p in [0usize, 7, 20, 39] {
        let q = idx.vector(p).to_vec();
        for c in 0..40 {
            assert_eq!(live.accepts(&q, c), cached.accepts(&q, c), "query {p}, candidate {c}");
        }
    }
}

#[test]
fn a_far_query_is_rejected() {
    let idx = small_index();
    let live = RknnVerifier::new_live(&idx, 3, F32(1.0));
    let q = wrap(&[1000.0, 1000.0]);
    assert!(!live.accepts(&q, 0));
    let cands = idx.search(&q, 4);
    assert_eq!(live.filter(&q, &cands), vec![]);
}

#[test]
fn evaluation_of_two_searches() {
    let truths = vec![vec![1, 2], vec![3, 4]];
    let outs = vec![vec![1, 9, 9], vec![]];
    let r: EvalResult<F32> = evaluate(&truths, &outs, &[9], 2, vec![30, 10]);
    assert_eq!(r.recall, F32(0.25));
    assert_eq!(r.precision, F32(0.25));
    assert_eq!(r.hub_rate, F32(0.5));
    assert_eq!(r.median_ns, 30);
    assert_eq!(r.mean_returned, F32(1.5));
}

#[test]
fn acceptance_compares_the_three_evaluations() {
    let make = |precision: f32, hub_rate: f32, median_ns: u128| EvalResult {
        recall: F32(0.5),
        precision: F32(precision),
        hub_rate: F32(hub_rate),
        median_ns,
        mean_returned: F32(1.0),
    };
    assert!(accepts(&make(0.5, 0.2, 1), &make(0.5, 0.2, 10), &make(0.5, 0.2, 40)));
    assert!(!accepts(&make(0.5, 0.2, 1), &make(0.5, 0.2, 10), &make(0.5, 0.2, 41)));
    assert!(!accepts(&make(0.6, 0.2, 1), &make(0.5, 0.2, 10), &make(0.5, 0.2, 1)));
    assert!(!accepts(&make(0.5, 0.1, 1), &make(0.5, 0.2, 10), &make(0.5, 0.2, 1)));
}

#[test]
fn copies_of_a_vector_leave_both_modes_in_agreement() {
    let mut rows = vec![wrap(&[1.0, 1.0]); 5];
    rows.push(wrap(&[4.0, 5.0]));
    let idx = FlatL2Index::from_rows(2, &rows);
    // Vector 4 is not among its own three hits: its copies come first.
    assert!(idx.search(&rows[4], 3).iter().all(|h| h.0 != 4));
    for k in [0, 1, 2, 4, 5, 9] {
        let live = RknnVerifier::new_live(&idx, k, F32(1.0));
        let cached = RknnVerifier::new_cached(&idx, k, F32(1.0));
        for c in 0..6 {
            assert!(live.accepts(idx.vector(c), c), "k {k}, candidate {c}");
            assert!(cached.accepts(idx.vector(c), c), "k {k}, candidate {c}");
            for q in &rows {
                if live.accepts(q, c) {
                    assert!(cached.accepts(q, c));
                }
            }
        }
    }
}

#[test]
fn live_radius_is_the_distance_of_the_last_neighbour() {
    let rows: Vec<Vec<F32>> = [0.0, 1.0, 3.0, 7.0].iter().map(|&x| wrap(&[x])).collect();
    let idx = FlatL2Index::from_rows(1, &rows);
    // The second nearest other vector of vector 0 lies at 3.
    let live = RknnVerifier::new_live(&idx, 2, F32(1.0));
    assert!(live.accepts(&wrap(&[-3.0]), 0));
    assert!(!live.accepts(&wrap(&[-3.001]), 0));
    // Asked for more neighbours than there are, the farthest one counts.
    let wide = RknnVerifier::new_live(&idx, 10, F32(1.0));
    assert!(wide.accepts(&wrap(&[-7.0]), 0));
    assert!(!wide.accepts(&wrap(&[-7.001]), 0));
    let none = RknnVerifier::new_live(&idx, 0, F32(1.0));
    assert!(none.accepts(&wrap(&[0.0]), 0));
    assert!(!none.accepts(&wrap(&[0.001]), 0));
}

#[test]
fn noisy_search_returns_k_hits_in_order() {
    let idx = tiny_dataset();
    let q = idx.vector(3).to_vec();
    for (k, mult) in [(1, 1), (5, 4), (20, 9), (64, 1), (80, 2)] {
        let noisy = NoisyAnn::new(&idx, mult, 42);
        let hits = noisy.search(&q, k);
        assert_eq!(hits.len(), k.min(64));
        let mut ids: Vec<usize> = hits.iter().map(|h| h.0).collect();
        ids.sort();
        ids.dedup();
        assert_eq!(ids.len(), hits.len());
        for w in hits.windows(2) {
            assert!(w[0].1 <= w[1].1);
        }
        for (id, d) in &hits {
            let exact = sq_l2(&q, idx.vector(*id)).0;
            assert!((d.0 - exact).abs() <= 0.1751 * (exact + 0.001));
        }
    }
}

#[test]
fn shares_of_hubs_and_counts_of_queries() {
    let spec = |share: f32| GenSpec {
        n: 80,
        dim: 4,
        n_clusters: 3,
        hub_frac: F32(share),
        hub_scale: F32(3.0),
        seed: 17,
    };
    assert!(generate(&spec(0.0), 2, &Normal).hub_ids.is_empty());
    assert!(generate(&spec(-0.5), 2, &Normal).hub_ids.is_empty());
    assert_eq!(generate(&spec(1.0), 2, &Normal).hub_ids, (0..80).collect::<Vec<usize>>());
    let a = generate(&spec(0.3), 3, &Normal);
    let b = generate(&spec(0.3), 9, &Normal);
    assert!(!a.hub_ids.is_empty());
    for w in a.hub_ids.windows(2) {
        assert!(w[0] < w[1]);
    }
    assert!(a.hub_ids.iter().all(|&i| i < 80));
    assert_eq!(a.hub_ids, b.hub_ids);
    for i in 0..80 {
        assert_eq!(a.index.vector(i), b.index.vector(i));
    }
    assert_eq!(a.queries[..], b.queries[..3]);
}
