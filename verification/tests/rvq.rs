//! Residual vector quantization.

use std::collections::HashSet;

use rand::rngs::StdRng;
use rand::{Rng, SeedableRng};
use ruvector::order;
use ruvector::rvq::index::brute_l2_topk;
use ruvector::rvq::kmeans::{kmeans, kmeans_from};
use ruvector::rvq::{Quantizer, Rvq, RvqConfig, RvqError, RvqIndex};
use ruvector::scalar::{Scalar, Widen};

#[derive(Clone, Copy, Debug, PartialEq, PartialOrd)]
struct F32(f32);

impl Scalar for F32 {
    fn zero() -> Self {
        F32(0.0)
    }
    fn infinity() -> Self {
        F32(f32::INFINITY)
    }
    fn ratio(num: u64, den: u64) -> Self {
        F32((num as f64 / den as f64) as f32)
    }
    fn plus(self, other: Self) -> Self {
        F32(self.0 + other.0)
    }
    fn minus(self, other: Self) -> Self {
        F32(self.0 - other.0)
    }
    fn times(self, other: Self) -> Self {
        F32(self.0 * other.0)
    }
    fn over(self, other: Self) -> Self {
        F32(self.0 / other.0)
    }
    fn sqrt(self) -> Self {
        F32(self.0.sqrt())
    }
    fn byte(self) -> u8 {
        self.0.round().clamp(0.0, 255.0) as u8
    }
    fn nearest(self) -> i64 {
        self.0.round() as i64
    }
    fn key(self) -> u64 {
        order::key(self.0.to_bits()).expect("not a number")
    }
    fn law_zero() {}
    fn law_unit(_u: u64) {}
}

#[allow(dead_code)]
fn wrap(xs: &[f32]) -> Vec<F32> {
    xs.iter().map(|&x| F32(x)).collect()
}

#[derive(Clone, Copy, Debug, PartialEq, PartialOrd)]
struct F64(f64);

impl Scalar for F64 {
    fn zero() -> Self {
        F64(0.0)
    }
    fn infinity() -> Self {
        F64(f64::INFINITY)
    }
    fn ratio(num: u64, den: u64) -> Self {
        F64(num as f64 / den as f64)
    }
    fn plus(self, other: Self) -> Self {
        F64(self.0 + other.0)
    }
    fn minus(self, other: Self) -> Self {
        F64(self.0 - other.0)
    }
    fn times(self, other: Self) -> Self {
        F64(self.0 * other.0)
    }
    fn over(self, other: Self) -> Self {
        F64(self.0 / other.0)
    }
    fn sqrt(self) -> Self {
        F64(self.0.sqrt())
    }
    fn byte(self) -> u8 {
        self.0.round().clamp(0.0, 255.0) as u8
    }
    fn nearest(self) -> i64 {
        self.0.round() as i64
    }
    fn key(self) -> u64 {
        let bits = self.0.to_bits();
        if bits >> 63 == 0 {
            bits + (1 << 63)
        } else {
            (1 << 63) - (bits - (1 << 63))
        }
    }
    fn law_zero() {}
    fn law_unit(_u: u64) {}
}

impl Widen<F64> for F32 {
    fn widen(self) -> F64 {
        F64(self.0 as f64)
    }
    fn narrow(w: F64) -> Self {
        F32(w.0 as f32)
    }
}

fn uniform(n: usize, d: usize, seed: u64) -> Vec<F32> {
    let mut rng = StdRng::seed_from_u64(seed);
    (0..n * d).map(|_| F32(rng.gen_range(-1.0f32..1.0))).collect()
}

#[test]
fn recall_beats_random_on_gaussian() {
    let n = 2000;
    let d = 32;
    let k = 10;
    let data = uniform(n, d, 11);
    let queries = uniform(50, d, 22);
    let cfg = RvqConfig { stages: 8, k: 64, kmeans_iters: 12, seed: 99 };
    let rvq = Rvq::train(&data, n, d, &cfg).unwrap();
    let idx = RvqIndex::build(rvq, &data);
    let mut hits = 0usize;
    for qi in 0..50 {
        let q = &queries[qi * d..(qi + 1) * d];
        let truth: HashSet<u32> = brute_l2_topk(&data, d, q, k).into_iter().collect();
        let got = idx.search_l2(q, k);
        for r in &got {
            if truth.contains(&r.id) {
                hits += 1;
            }
        }
    }
    let recall = hits as f32 / (50 * k) as f32;
    assert!(recall > 0.3, "recall@10 = {recall:.3} — RVQ pipeline is broken");
}

#[test]
fn kmeans_converges_on_separable_blobs() {
    let mut data = Vec::new();
    for _ in 0..30 {
        data.push(F32(0.0));
    }
    for _ in 0..30 {
        data.push(F32(10.0));
    }
    for _ in 0..30 {
        data.push(F32(20.0));
    }
    let cents = kmeans(&data, 90, 1, 3, 20, 42);
    let mut c: Vec<f32> = cents.iter().map(|x| x.0).collect();
    c.sort_by(|a, b| a.partial_cmp(b).unwrap());
    assert!((c[0] - 0.0).abs() < 0.5);
    assert!((c[1] - 10.0).abs() < 0.5);
    assert!((c[2] - 20.0).abs() < 0.5);
}

#[test]
fn train_encode_decode_roundtrip() {
    let n = 400;
    let d = 32;
    let data = uniform(n, d, 1);
    let cfg = RvqConfig { stages: 8, k: 32, kmeans_iters: 10, seed: 7 };
    let q = Rvq::train(&data, n, d, &cfg).unwrap();
    let mut code = vec![0u8; q.code_bytes()];
    let mut recon = vec![F32(0.0); d];
    q.encode(&data[..d], &mut code).unwrap();
    q.decode(&code, &mut recon).unwrap();
    let mut err = 0f32;
    for j in 0..d {
        let e = data[j].0 - recon[j].0;
        err += e * e;
    }
    assert!(err / (d as f32) < 0.15, "recon MSE {} too large", err / (d as f32));
}

#[test]
fn more_stages_reduce_mse() {
    let n = 500;
    let d = 16;
    let data = uniform(n, d, 2);
    let two = RvqConfig { stages: 2, k: 32, kmeans_iters: 10, seed: 1 };
    let eight = RvqConfig { stages: 8, k: 32, kmeans_iters: 10, seed: 1 };
    let mse2 = Rvq::train(&data, n, d, &two).unwrap().reconstruction_mse::<F64>(&data, n).0;
    let mse8 = Rvq::train(&data, n, d, &eight).unwrap().reconstruction_mse::<F64>(&data, n).0;
    assert!(mse8 < mse2, "8 stages ({mse8}) should beat 2 stages ({mse2})");
}

#[test]
fn rvq_errors_show_their_messages() {
    assert_eq!(
        RvqError::Dim { expected: 3, got: 10 }.message(),
        "dimension mismatch: expected 3, got 10"
    );
    assert_eq!(RvqError::EmptyTraining.message(), "empty training set");
    assert_eq!(
        RvqError::KTooLarge { k: 20, n: 0 }.message(),
        "k (20) exceeds training-set size (0)"
    );
}

#[test]
fn training_and_coding_report_each_error() {
    let cfg = RvqConfig { stages: 1, k: 2, kmeans_iters: 1, seed: 1 };
    let none: Vec<F32> = vec![];
    assert_eq!(Rvq::train(&none, 0, 1, &cfg).err(), Some(RvqError::EmptyTraining));
    let one = wrap(&[1.0]);
    assert_eq!(Rvq::train(&one, 1, 1, &cfg).err(), Some(RvqError::KTooLarge { k: 2, n: 1 }));
    let data = wrap(&[0.0, 0.0, 4.0, 4.0]);
    let q = Rvq::train(&data, 4, 1, &cfg).unwrap();
    let mut code = vec![0u8; 1];
    assert_eq!(
        q.encode(&wrap(&[1.0, 2.0]), &mut code),
        Err(RvqError::Dim { expected: 1, got: 2 })
    );
    let mut out = wrap(&[0.0]);
    assert_eq!(q.decode(&[0, 0], &mut out), Err(RvqError::Dim { expected: 1, got: 2 }));
}

#[test]
fn default_rvq_config() {
    let c = RvqConfig::default();
    assert_eq!((c.stages, c.k, c.kmeans_iters, c.seed), (8, 256, 15, 0xC0FFEE));
}

#[test]
fn two_clusters_are_coded_exactly() {
    let data = wrap(&[0.0, 0.0, 4.0, 4.0]);
    let cfg = RvqConfig { stages: 1, k: 2, kmeans_iters: 5, seed: 3 };
    let q = Rvq::train(&data, 4, 1, &cfg).unwrap();
    assert_eq!((q.stages(), q.k(), q.storage_bytes(4)), (1, 2, 4));
    let mut code = vec![0u8; 1];
    let mut out = wrap(&[0.0]);
    for x in [0.0f32, 4.0] {
        q.encode(&[F32(x)], &mut code).unwrap();
        q.decode(&code, &mut out).unwrap();
        assert_eq!(out[0], F32(x));
    }
    assert_eq!(q.reconstruction_mse::<F64>(&data, 4), F32(0.0));
    let idx = RvqIndex::build(q, &data);
    assert_eq!(idx.len(), 4);
    assert!(!idx.is_empty());
    assert_eq!(idx.code_bytes(), 4);
    let near = idx.search_l2(&wrap(&[3.0]), 3);
    let ids: Vec<u32> = near.iter().map(|r| r.id).collect();
    assert_eq!(ids, vec![2, 3, 0]);
    assert_eq!(near[0].score, F32(1.0));
    let ip = idx.search_ip(&wrap(&[2.0]), 1);
    assert_eq!((ip[0].id, ip[0].score), (2, F32(8.0)));
    let again = idx.search_l2_rerank(&wrap(&[3.0]), 2, 4, &data);
    let ids: Vec<u32> = again.iter().map(|r| r.id).collect();
    assert_eq!(ids, vec![2, 3]);
}

#[test]
fn reranking_everything_is_exact() {
    let n = 200;
    let d = 8;
    let data = uniform(n, d, 5);
    let cfg = RvqConfig { stages: 2, k: 8, kmeans_iters: 4, seed: 6 };
    let rvq = Rvq::train(&data, n, d, &cfg).unwrap();
    let idx = RvqIndex::build(rvq, &data);
    let queries = uniform(5, d, 8);
    for qi in 0..5 {
        let q = &queries[qi * d..(qi + 1) * d];
        let got: Vec<u32> = idx.search_l2_rerank(q, 10, n, &data).iter().map(|r| r.id).collect();
        assert_eq!(got, brute_l2_topk(&data, d, q, 10));
    }
}

#[test]
fn estimates_agree_with_decoded_vectors() {
    let n = 100;
    let d = 4;
    let data = uniform(n, d, 9);
    let cfg = RvqConfig { stages: 3, k: 8, kmeans_iters: 4, seed: 6 };
    let rvq = Rvq::train(&data, n, d, &cfg).unwrap();
    let q = &data[..d];
    let lut = rvq.ip_lut(q);
    let norms = rvq.l2_norm_lut();
    let mut code = vec![0u8; 3];
    let mut out = vec![F32(0.0); d];
    for i in 0..20 {
        rvq.encode(&data[i * d..(i + 1) * d], &mut code).unwrap();
        rvq.decode(&code, &mut out).unwrap();
        let ip: f32 = q.iter().zip(&out).map(|(a, b)| a.0 * b.0).sum();
        assert!((rvq.estimate_ip(&lut, &code).0 - ip).abs() < 1e-4);
        let l2 = rvq.estimate_l2(F32(q.iter().map(|x| x.0 * x.0).sum()), &lut, &norms, &code);
        assert!(l2.0.is_finite());
    }
}

#[test]
fn training_is_repeatable() {
    let data = uniform(100, 4, 3);
    let a = kmeans(&data, 100, 4, 5, 6, 77);
    let b = kmeans(&data, 100, 4, 5, 6, 77);
    assert_eq!(a, b);
    assert_eq!(a.len(), 20);
}

#[test]
fn seeds_follow_the_standard_generator() {
    let n = 40;
    let data: Vec<F32> = (0..n).map(|i| F32((i * i) as f32)).collect();
    for seed in [1u64, 7, 99] {
        let mut rng = StdRng::seed_from_u64(seed);
        let first = data[rng.gen_range(0..n)].0;
        let weights: Vec<f32> = data.iter().map(|x| (x.0 - first) * (x.0 - first)).collect();
        let total: f32 = weights.iter().sum();
        let t: f32 = rng.gen_range(0.0..total);
        let mut acc = 0f32;
        let mut second = data[n - 1].0;
        for (x, w) in data.iter().zip(&weights) {
            acc += w;
            if acc >= t {
                second = x.0;
                break;
            }
        }
        assert_eq!(kmeans(&data, n, 1, 2, 0, seed), wrap(&[first, second]));
    }
}

#[test]
fn given_draws_decide_the_centres() {
    let data = wrap(&[0.0, 0.0, 10.0, 20.0]);
    let low = kmeans_from(&data, 4, 1, 2, &[(1, 0), (3, u32::MAX)], &[]);
    assert_eq!(low, wrap(&[0.0, 20.0]));
    let same = kmeans_from(&data, 4, 1, 2, &[(0, 0), (3, 0)], &[]);
    assert_eq!(same, wrap(&[0.0, 0.0]));
    let moved = kmeans_from(&data, 4, 1, 2, &[(0, 0), (3, 0)], &[vec![0, 3]]);
    assert_eq!(moved, wrap(&[7.5, 20.0]));
    let flat = wrap(&[5.0, 5.0, 5.0]);
    let even = kmeans_from(&flat, 3, 1, 2, &[(0, 0), (2, 0)], &[]);
    assert_eq!(even, wrap(&[5.0, 5.0]));
}
