//! Inverted files with spilled postings.

use ruvector::noise::FineNoise;
use ruvector::order;
use ruvector::scalar::{Scalar, Widen};
use ruvector::soar_ivf::dataset::{Dataset, DatasetConfig, Lcg};
use ruvector::soar_ivf::ivf_common::{
    centroid_bytes, corpus_bytes, nearest_centroid_idx, posting_bytes, rank_centroids, Centroids,
    IvfVariant,
};
use ruvector::soar_ivf::ivf_single::IvfSingle;
use ruvector::soar_ivf::ivf_soar::{parallel_penalty, IvfSoar};
use ruvector::soar_ivf::ivf_spill_topk::IvfSpillTopK;
use ruvector::soar_ivf::metrics::{brute_force_topk, recall_at_k, Hit};
use ruvector::soar_ivf::{dot, sq_l2, sub_into};

#[derive(Clone, Copy, Debug, PartialEq, PartialOrd)]
struct F32(f32);

impl Scalar for F32 {
    fn zero() -> Self {
        F32(0.0)
    }
    fn infinity() -> Self {
        F32(f32::INFINITY)
    }
    fn ratio(num: u64, den: u64) -> Self {
        F32((num as f64 / den as f64) as f32)
    }
    fn plus(self, other: Self) -> Self {
        F32(self.0 + other.0)
    }
    fn minus(self, other: Self) -> Self {
        F32(self.0 - other.0)
    }
    fn times(self, other: Self) -> Self {
        F32(self.0 * other.0)
    }
    fn over(self, other: Self) -> Self {
        F32(self.0 / other.0)
    }
    fn sqrt(self) -> Self {
        F32(self.0.sqrt())
    }
    fn byte(self) -> u8 {
        self.0.round().clamp(0.0, 255.0) as u8
    }
    fn nearest(self) -> i64 {
        self.0.round() as i64
    }
    fn key(self) -> u64 {
        order::key(self.0.to_bits()).expect("not a number")
    }
    fn law_zero() {}
    fn law_unit(_u: u64) {}
}

#[allow(dead_code)]
fn wrap(xs: &[f32]) -> Vec<F32> {
    xs.iter().map(|&x| F32(x)).collect()
}

#[derive(Clone, Copy, Debug, PartialEq, PartialOrd)]
struct F64(f64);

impl Scalar for F64 {
    fn zero() -> Self {
        F64(0.0)
    }
    fn infinity() -> Self {
        F64(f64::INFINITY)
    }
    fn ratio(num: u64, den: u64) -> Self {
        F64(num as f64 / den as f64)
    }
    fn plus(self, other: Self) -> Self {
        F64(self.0 + other.0)
    }
    fn minus(self, other: Self) -> Self {
        F64(self.0 - other.0)
    }
    fn times(self, other: Self) -> Self {
        F64(self.0 * other.0)
    }
    fn over(self, other: Self) -> Self {
        F64(self.0 / other.0)
    }
    fn sqrt(self) -> Self {
        F64(self.0.sqrt())
    }
    fn byte(self) -> u8 {
        self.0.round().clamp(0.0, 255.0) as u8
    }
    fn nearest(self) -> i64 {
        self.0.round() as i64
    }
    fn key(self) -> u64 {
        let bits = self.0.to_bits();
        if bits >> 63 == 0 {
            bits + (1 << 63)
        } else {
            (1 << 63) - (bits - (1 << 63))
        }
    }
    fn law_zero() {}
    fn law_unit(_u: u64) {}
}

impl Widen<F64> for F32 {
    fn widen(self) -> F64 {
        F64(self.0 as f64)
    }
    fn narrow(w: F64) -> Self {
        F32(w.0 as f32)
    }
}

/// Normal samples by the transform of Box and Muller.
struct Normal;

impl FineNoise<F32> for Normal {
    fn fine_normal(&self, u1: u64, u2: u64) -> F32 {
        let u1 = u1 as f64 / (1u64 << 53) as f64;
        let u2 = u2 as f64 / (1u64 << 53) as f64;
        let r = (-2.0 * (u1 + 1e-12).ln()).sqrt();
        let theta = 2.0 * std::f64::consts::PI * u2;
        F32((r * theta.cos()) as f32)
    }
}

fn wrap_rows(rows: &[Vec<f32>]) -> Vec<Vec<F32>> {
    rows.iter().map(|r| wrap(r)).collect()
}

fn config(
    n_vectors: usize,
    dims: usize,
    n_queries: usize,
    n_clusters: usize,
    sigma: f32,
    center_sigma: f32,
    seed: u64,
) -> DatasetConfig<F32> {
    DatasetConfig {
        n_vectors,
        dims,
        n_queries,
        n_clusters,
        sigma: F32(sigma),
        center_sigma: F32(center_sigma),
        seed,
    }
}

#[test]
fn dataset_is_deterministic() {
    let a = Dataset::generate(config(200, 8, 10, 4, 1.0, 5.0, 99), &Normal);
    let b = Dataset::generate(config(200, 8, 10, 4, 1.0, 5.0, 99), &Normal);
    assert_eq!(a.vectors[0], b.vectors[0]);
    assert_eq!(a.queries[5], b.queries[5]);
}

#[test]
fn dataset_shape() {
    let d = Dataset::generate(config(100, 12, 7, 3, 1.0, 3.0, 42), &Normal);
    assert_eq!(d.vectors.len(), 100);
    assert_eq!(d.vectors[0].len(), 12);
    assert_eq!(d.queries.len(), 7);
    assert_eq!(d.queries[0].len(), 12);
}

#[test]
fn kmeans_produces_centroids_with_all_points_assigned() {
    let mut v = Vec::new();
    for _ in 0..30 {
        v.push(wrap(&[0.0, 0.0]));
        v.push(wrap(&[10.0, 0.0]));
        v.push(wrap(&[0.0, 10.0]));
    }
    let c = Centroids::train::<F64>(&v, 3, 10, 42);
    assert_eq!(c.vecs.len(), 3);
    for p in &v {
        let idx = nearest_centroid_idx(p, &c.vecs);
        let cc = &c.vecs[idx];
        assert!(sq_l2(p, cc).0 < 5.0, "point {:?} centroid {:?}", p, cc);
    }
}

#[test]
fn probe_returns_requested_number() {
    let v: Vec<Vec<F32>> = (0..20).map(|i| wrap(&[i as f32, 0.0])).collect();
    let c = Centroids::train::<F64>(&v, 5, 5, 7);
    let probed = c.probe(&wrap(&[3.0, 0.0]), 3);
    assert_eq!(probed.len(), 3);
    for i in probed {
        assert!(i < c.len());
    }
}

#[test]
fn rank_centroids_is_sorted_ascending() {
    let cs = wrap_rows(&[vec![0.0, 0.0], vec![5.0, 0.0], vec![100.0, 0.0]]);
    let r = rank_centroids(&wrap(&[1.0, 0.0]), &cs);
    assert_eq!(r[0].0, 0);
    assert_eq!(r[1].0, 1);
    assert_eq!(r[2].0, 2);
    assert!(r[0].1 < r[1].1 && r[1].1 < r[2].1);
}

#[test]
fn total_postings_equal_n_vectors() {
    let d = Dataset::generate(config(500, 8, 10, 8, 0.5, 5.0, 7), &Normal);
    let idx = IvfSingle::build::<F64>(&d.vectors, 16, 8, 42);
    assert_eq!(idx.lists.total_entries, 500);
    assert_eq!(idx.spill_overhead(), 0);
}

#[test]
fn search_returns_k_or_fewer_hits() {
    let d = Dataset::generate(config(200, 8, 5, 4, 0.5, 4.0, 11), &Normal);
    let idx = IvfSingle::build::<F64>(&d.vectors, 8, 6, 42);
    let hits = idx.search(&d.queries[0], 10, 4);
    assert!(hits.len() <= 10);
    for w in hits.windows(2) {
        assert!(w[0].dist <= w[1].dist);
    }
}

#[test]
fn spill_one_matches_single_assignment() {
    let d = Dataset::generate(config(200, 8, 5, 4, 0.5, 4.0, 21), &Normal);
    let idx = IvfSoar::build::<F64>(&d.vectors, 8, 1, F32(1.0), 6, 42);
    assert_eq!(idx.lists.total_entries, 200);
    assert_eq!(idx.spill_overhead(), 0);
}

#[test]
fn spill_two_doubles_postings_and_records_duplicates() {
    let d = Dataset::generate(config(300, 8, 5, 6, 0.5, 4.0, 22), &Normal);
    let idx = IvfSoar::build::<F64>(&d.vectors, 12, 2, F32(1.0), 6, 42);
    assert_eq!(idx.lists.total_entries, 300 * 2);
    assert_eq!(idx.spill_overhead(), 300);
}

#[test]
fn lambda_zero_recovers_ordinary_topk_spill_secondary_choice() {
    let d = Dataset::generate(config(400, 8, 10, 6, 0.5, 4.0, 23), &Normal);
    let soar = IvfSoar::build::<F64>(&d.vectors, 8, 2, F32(0.0), 6, 42);
    let topk = IvfSpillTopK::build::<F64>(&d.vectors, 8, 2, 6, 42);
    assert_eq!(soar.centroids.vecs.len(), topk.centroids.vecs.len());
    for (a, b) in soar.lists.lists.iter().zip(topk.lists.lists.iter()) {
        let mut aa = a.clone();
        let mut bb = b.clone();
        aa.sort();
        bb.sort();
        assert_eq!(aa, bb, "posting lists differ when λ=0");
    }
}

fn soar_cost(r_cand: &[f32], r_prev: &[f32], r_prev_sq: f32, lambda: f32) -> f32 {
    let r = wrap(r_cand);
    let penalty = parallel_penalty(F32(lambda), &r, &wrap(r_prev), F32(r_prev_sq));
    dot(&r, &r).plus(penalty).0
}

#[test]
fn soar_cost_penalises_parallel_residuals() {
    let r_p = vec![1.0f32, 0.0];
    let rp_sq = 1.0f32;
    let r_a = vec![2.0f32, 0.0];
    let r_b = vec![0.0f32, -2.0];
    assert!((soar_cost(&r_a, &r_p, rp_sq, 0.0) - soar_cost(&r_b, &r_p, rp_sq, 0.0)).abs() < 1e-6);
    let ca = soar_cost(&r_a, &r_p, rp_sq, 1.0);
    let cb = soar_cost(&r_b, &r_p, rp_sq, 1.0);
    assert!(ca > cb + 1e-3, "expected parallel to cost more: ca={} cb={}", ca, cb);
    let ca4 = soar_cost(&r_a, &r_p, rp_sq, 4.0);
    let cb4 = soar_cost(&r_b, &r_p, rp_sq, 4.0);
    assert!(ca4 - cb4 > 15.0);
}

#[test]
fn spill_factor_multiplies_postings() {
    let d = Dataset::generate(config(200, 8, 5, 4, 0.5, 4.0, 3), &Normal);
    let idx = IvfSpillTopK::build::<F64>(&d.vectors, 16, 2, 6, 42);
    assert_eq!(idx.lists.total_entries, 200 * 2);
    assert_eq!(idx.spill_overhead(), 200);
}

#[test]
fn spill_one_matches_single() {
    let d = Dataset::generate(config(100, 6, 2, 3, 0.3, 3.0, 5), &Normal);
    let idx = IvfSpillTopK::build::<F64>(&d.vectors, 8, 1, 4, 42);
    assert_eq!(idx.spill_overhead(), 0);
    assert_eq!(idx.lists.total_entries, 100);
}

#[test]
fn sq_l2_self_zero() {
    let v = wrap(&[1.0, -2.0, 3.5]);
    assert!(sq_l2(&v, &v).0 < 1e-9);
}

#[test]
fn sq_l2_symmetric() {
    let a = wrap(&[0.0, 1.0, 2.0]);
    let b = wrap(&[1.0, 0.0, 0.0]);
    assert!((sq_l2(&a, &b).0 - sq_l2(&b, &a).0).abs() < 1e-9);
}

#[test]
fn dot_basic() {
    let a = wrap(&[1.0, 2.0, 3.0]);
    let b = wrap(&[4.0, -1.0, 2.0]);
    assert!((dot(&a, &b).0 - 8.0).abs() < 1e-6);
}

#[test]
fn sub_into_basic() {
    let a = wrap(&[5.0, 3.0, 1.0]);
    let b = wrap(&[1.0, 1.0, 1.0]);
    let mut out = wrap(&[0.0; 3]);
    sub_into(&a, &b, &mut out);
    assert_eq!(out, wrap(&[4.0, 2.0, 0.0]));
}

fn hit(id: usize, dist: f32) -> Hit<F32> {
    Hit { id, dist: F32(dist) }
}

#[test]
fn recall_perfect() {
    let gt = vec![hit(0, 0.1), hit(1, 0.2), hit(2, 0.3)];
    let r: F32 = recall_at_k(&gt, &gt, 3);
    assert!((r.0 - 1.0).abs() < 1e-6);
}

#[test]
fn recall_partial() {
    let gt = vec![hit(0, 0.1), hit(1, 0.2), hit(2, 0.3), hit(3, 0.4)];
    let res = vec![hit(0, 0.1), hit(1, 0.2), hit(99, 5.0), hit(100, 6.0)];
    let r: F32 = recall_at_k(&res, &gt, 4);
    assert!((r.0 - 0.5).abs() < 1e-6);
}

#[test]
fn recall_empty_gt_defaults_perfect() {
    let res = vec![hit(0, 0.0)];
    let r: F32 = recall_at_k(&res, &[], 5);
    assert_eq!(r, F32(1.0));
}

#[test]
fn soar_lcg_gives_exact_draws() {
    let mut rng = Lcg::new(0x51ed_beef_cafe_1234);
    assert_eq!(rng.next_u64(), 1_442_695_040_888_963_407);
    let mut again = Lcg::new(0x51ed_beef_cafe_1234);
    assert_eq!(again.next_f64(), 1_442_695_040_888_963_407 >> 11);
    let mut third = Lcg::new(0x51ed_beef_cafe_1234);
    let x = third.next_range(10, 20);
    assert!(x >= 10 && x < 20);
    assert_eq!(third.next_range(4, 4), 4);
}

#[test]
fn default_dataset_config() {
    let c: DatasetConfig<F32> = DatasetConfig::default();
    assert_eq!(c.n_vectors, 20_000);
    assert_eq!(c.dims, 64);
    assert_eq!(c.n_queries, 500);
    assert_eq!(c.n_clusters, 64);
    assert_eq!(c.sigma, F32(1.0));
    assert_eq!(c.center_sigma, F32(6.0));
    assert_eq!(c.seed, 0x50A5_0000_ABCD_1234);
}

#[test]
fn probing_every_list_is_exact() {
    let d = Dataset::generate(config(300, 8, 5, 4, 0.5, 4.0, 31), &Normal);
    let idx = IvfSingle::build::<F64>(&d.vectors, 8, 6, 42);
    for q in &d.queries {
        let want = brute_force_topk(q, &d.vectors, 10);
        let got = idx.search(q, 10, 8);
        let want_ids: Vec<usize> = want.iter().map(|h| h.id).collect();
        let got_ids: Vec<usize> = got.iter().map(|h| h.id).collect();
        assert_eq!(got_ids, want_ids);
        let r: F32 = recall_at_k(&got, &want, 10);
        assert_eq!(r, F32(1.0));
    }
}

#[test]
fn spilled_search_reports_no_vector_twice() {
    let d = Dataset::generate(config(300, 8, 5, 4, 0.5, 4.0, 32), &Normal);
    let soar = IvfSoar::build::<F64>(&d.vectors, 8, 3, F32(1.0), 6, 42);
    for q in &d.queries {
        for hits in [soar.search(q, 20, 8), soar.search_approx(q, 20, 8)] {
            let mut ids: Vec<usize> = hits.iter().map(|h| h.id).collect();
            ids.sort();
            ids.dedup();
            assert_eq!(ids.len(), hits.len());
            assert_eq!(hits.len(), 20);
            for w in hits.windows(2) {
                assert!(w[0].dist <= w[1].dist);
            }
        }
    }
}

#[test]
fn brute_force_orders_by_distance_and_position() {
    let v = wrap_rows(&[vec![3.0], vec![1.0], vec![-1.0]]);
    let hits = brute_force_topk(&wrap(&[0.0]), &v, 2);
    assert_eq!(hits.len(), 2);
    assert_eq!((hits[0].id, hits[0].dist), (1, F32(1.0)));
    assert_eq!((hits[1].id, hits[1].dist), (2, F32(1.0)));
}

#[test]
fn names_and_sizes() {
    let v = wrap_rows(&[vec![0.0, 0.0], vec![1.0, 0.0]]);
    let single = IvfSingle::build::<F64>(&v, 1, 1, 1);
    let topk = IvfSpillTopK::build::<F64>(&v, 1, 1, 1, 1);
    let soar = IvfSoar::build::<F64>(&v, 1, 1, F32(1.0), 1, 1);
    assert_eq!(single.name(), "IVF-Single");
    assert_eq!(topk.name(), "IVF-SpillTopK");
    assert_eq!(soar.name(), "IVF-SOAR");
    assert_eq!(corpus_bytes(2, 3), 24);
    let word = std::mem::size_of::<usize>();
    let header = std::mem::size_of::<Vec<usize>>();
    assert_eq!(posting_bytes(&single.lists), 2 * (word + 4) + 2 * header);
    assert_eq!(centroid_bytes(&single.centroids), 2 * 4 + header);
    assert_eq!(
        single.memory_bytes(),
        posting_bytes(&single.lists) + centroid_bytes(&single.centroids)
    );
}

#[test]
fn duplicates_count_postings_and_vectors() {
    let d = Dataset::generate(config(50, 4, 1, 4, 0.5, 4.0, 33), &Normal);
    let topk = IvfSpillTopK::build::<F64>(&d.vectors, 8, 3, 2, 42);
    assert_eq!((topk.spill_overhead(), topk.lists.dup_count), (100, 50));
    let soar = IvfSoar::build::<F64>(&d.vectors, 8, 3, F32(1.0), 2, 42);
    assert_eq!((soar.spill_overhead(), soar.lists.dup_count), (100, 50));
    let one = IvfSoar::build::<F64>(&d.vectors, 8, 1, F32(1.0), 2, 42);
    assert_eq!((one.spill_overhead(), one.lists.dup_count), (0, 0));
    let few = IvfSpillTopK::build::<F64>(&d.vectors, 2, 5, 2, 42);
    assert_eq!((few.spill_overhead(), few.lists.total_entries), (50, 100));
}

#[test]
fn lambda_zero_searches_as_plain_spilling() {
    let d = Dataset::generate(config(300, 8, 6, 5, 0.5, 4.0, 29), &Normal);
    for spill in [1, 2, 4] {
        let soar = IvfSoar::build::<F64>(&d.vectors, 6, spill, F32(0.0), 5, 42);
        let topk = IvfSpillTopK::build::<F64>(&d.vectors, 6, spill, 5, 42);
        assert_eq!(soar.lists.lists, topk.lists.lists);
        assert_eq!(soar.lists.residual_norms, topk.lists.residual_norms);
        for q in &d.queries {
            let ids = |hits: &[Hit<F32>]| -> Vec<usize> { hits.iter().map(|h| h.id).collect() };
            assert_eq!(ids(&soar.search(q, 10, 2)), ids(&topk.search(q, 10, 2)));
        }
    }
}

#[test]
fn probing_every_list_of_a_spilled_file_is_exact() {
    let d = Dataset::generate(config(60, 6, 4, 4, 0.5, 4.0, 33), &Normal);
    let spilled = IvfSpillTopK::build::<F64>(&d.vectors, 5, 2, 6, 42);
    let soar = IvfSoar::build::<F64>(&d.vectors, 5, 3, F32(1.0), 6, 42);
    for q in &d.queries {
        for k in [1, 10, 60, 80] {
            let want: Vec<F32> =
                brute_force_topk(q, &d.vectors, k).iter().map(|h| h.dist).collect();
            assert_eq!(want.len(), k.min(60));
            for got in [spilled.search(q, k, 5), soar.search(q, k, 9)] {
                let dists: Vec<F32> = got.iter().map(|h| h.dist).collect();
                assert_eq!(dists, want);
            }
        }
    }
}
