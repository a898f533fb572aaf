//! Product quantization.

use ruvector::noise::Noise;
use ruvector::order;
use ruvector::rpq::kmeans::sq_l2;
use ruvector::rpq::sweep::{
    encode_all, make_clustered, score_codes, score_codes_once, topk_from_scores,
};
use ruvector::rpq::{
    brute_topk, kmeans, recall_at_k, Pq, Quantizer, Rng, Rpq2, Rpq2Scorer, Sq8,
};
use ruvector::scalar::{Scalar, Widen};

#[derive(Clone, Copy, Debug, PartialEq, PartialOrd)]
struct F32(f32);

impl Scalar for F32 {
    fn zero() -> Self {
        F32(0.0)
    }
    fn infinity() -> Self {
        F32(f32::INFINITY)
    }
    fn ratio(num: u64, den: u64) -> Self {
        F32((num as f64 / den as f64) as f32)
    }
    fn plus(self, other: Self) -> Self {
        F32(self.0 + other.0)
    }
    fn minus(self, other: Self) -> Self {
        F32(self.0 - other.0)
    }
    fn times(self, other: Self) -> Self {
        F32(self.0 * other.0)
    }
    fn over(self, other: Self) -> Self {
        F32(self.0 / other.0)
    }
    fn sqrt(self) -> Self {
        F32(self.0.sqrt())
    }
    fn byte(self) -> u8 {
        self.0.round().clamp(0.0, 255.0) as u8
    }
    fn nearest(self) -> i64 {
        self.0.round() as i64
    }
    fn key(self) -> u64 {
        order::key(self.0.to_bits()).expect("not a number")
    }
    fn law_zero() {}
    fn law_unit(_u: u64) {}
}

#[allow(dead_code)]
fn wrap(xs: &[f32]) -> Vec<F32> {
    xs.iter().map(|&x| F32(x)).collect()
}

#[derive(Clone, Copy, Debug, PartialEq, PartialOrd)]
struct F64(f64);

impl Scalar for F64 {
    fn zero() -> Self {
        F64(0.0)
    }
    fn infinity() -> Self {
        F64(f64::INFINITY)
    }
    fn ratio(num: u64, den: u64) -> Self {
        F64(num as f64 / den as f64)
    }
    fn plus(self, other: Self) -> Self {
        F64(self.0 + other.0)
    }
    fn minus(self, other: Self) -> Self {
        F64(self.0 - other.0)
    }
    fn times(self, other: Self) -> Self {
        F64(self.0 * other.0)
    }
    fn over(self, other: Self) -> Self {
        F64(self.0 / other.0)
    }
    fn sqrt(self) -> Self {
        F64(self.0.sqrt())
    }
    fn byte(self) -> u8 {
        self.0.round().clamp(0.0, 255.0) as u8
    }
    fn nearest(self) -> i64 {
        self.0.round() as i64
    }
    fn key(self) -> u64 {
        let bits = self.0.to_bits();
        if bits >> 63 == 0 {
            bits + (1 << 63)
        } else {
            (1 << 63) - (bits - (1 << 63))
        }
    }
    fn law_zero() {}
    fn law_unit(_u: u64) {}
}

impl Widen<F64> for F32 {
    fn widen(self) -> F64 {
        F64(self.0 as f64)
    }
    fn narrow(w: F64) -> Self {
        F32(w.0 as f32)
    }
}

/// Normal samples by the transform of Box and Muller.
struct Normal;

impl Noise<F32> for Normal {
    fn normal(&self, u1: u32, u2: u32) -> F32 {
        let mut u1 = u1 as f32 * (1.0 / (1u32 << 24) as f32);
        if u1 < 1e-7 {
            u1 = 1e-7;
        }
        let u2 = u2 as f32 * (1.0 / (1u32 << 24) as f32);
        let r = (-2.0f32 * u1.ln()).sqrt();
        let theta = 2.0 * std::f32::consts::PI * u2;
        F32(r * theta.cos())
    }
}

fn make_data(n: usize, dim: usize, seed: u64) -> Vec<F32> {
    let mut rng = Rng::new(seed);
    (0..n * dim).map(|_| rng.next_gauss(&Normal)).collect()
}

#[test]
fn kmeans_produces_k_centroids() {
    let mut rng = Rng::new(1);
    let data = make_data(400, 8, 7);
    let cent = kmeans::<F32, F64>(&data, 8, 16, 5, &mut rng);
    assert_eq!(cent.len(), 16 * 8);
}

#[test]
fn pq_encode_decode_reasonable_error() {
    let mut rng = Rng::new(2);
    let dim = 32;
    let train = make_data(2_000, dim, 3);
    let pq = Pq::train::<F64>(&train, dim, 8, 8, &mut rng);
    let mut code = vec![0u8; pq.code_bytes()];
    let mut recon = vec![F32(0.0); dim];
    let mut err = 0.0f64;
    let mut norm = 0.0f64;
    for i in 0..200 {
        let x = &train[i * dim..(i + 1) * dim];
        pq.encode(x, &mut code);
        pq.reconstruct(&code, &mut recon);
        err += sq_l2(x, &recon).0 as f64;
        norm += sq_l2(x, &vec![F32(0.0); dim]).0 as f64;
    }
    let ratio = err / norm;
    assert!(ratio < 0.6, "PQ reconstruction ratio too high: {ratio}");
}

#[test]
fn rpq2_beats_pq_reconstruction() {
    let mut rng = Rng::new(4);
    let dim = 32;
    let train = make_data(2_000, dim, 9);
    let pq = Pq::train::<F64>(&train, dim, 8, 8, &mut rng);
    let rpq = Rpq2::train::<F64>(&train, dim, 8, 8, 8, &mut rng);
    assert_eq!(pq.code_bytes(), 8);
    assert_eq!(rpq.code_bytes(), 16);

    let mut c_pq = vec![0u8; pq.code_bytes()];
    let mut c_rpq = vec![0u8; rpq.code_bytes()];
    let mut r_pq = vec![F32(0.0); dim];
    let mut r1 = vec![F32(0.0); dim];
    let mut r2 = vec![F32(0.0); dim];
    let mut recon_rpq = vec![F32(0.0); dim];

    let mut err_pq = 0.0f64;
    let mut err_rpq = 0.0f64;
    for i in 0..500 {
        let x = &train[i * dim..(i + 1) * dim];
        pq.encode(x, &mut c_pq);
        pq.reconstruct(&c_pq, &mut r_pq);
        err_pq += sq_l2(x, &r_pq).0 as f64;

        rpq.encode(x, &mut c_rpq);
        let (c1, c2) = c_rpq.split_at(rpq.m1());
        rpq.pq1().reconstruct(c1, &mut r1);
        rpq.pq2().reconstruct(c2, &mut r2);
        for d in 0..dim {
            recon_rpq[d] = r1[d].plus(r2[d]);
        }
        err_rpq += sq_l2(x, &recon_rpq).0 as f64;
    }
    assert!(err_rpq < err_pq, "RPQ2 err {err_rpq} not < PQ err {err_pq}");
}

#[test]
fn sq8_roundtrip_bounded_error() {
    let dim = 16;
    let train = make_data(400, dim, 11);
    let sq = Sq8::train(&train, dim);
    assert_eq!(sq.code_bytes(), dim);
    let mut code = vec![0u8; dim];
    for i in 0..100 {
        let x = &train[i * dim..(i + 1) * dim];
        sq.encode(x, &mut code);
        let d = sq.adc_sq_distance(x, &code).0;
        assert!(d < 1e-2 * dim as f32, "sq8 self-distance too large: {d}");
    }
}

#[test]
fn adc_matches_reference() {
    let mut rng = Rng::new(5);
    let dim = 32;
    let train = make_data(1_000, dim, 6);
    let pq = Pq::train::<F64>(&train, dim, 8, 8, &mut rng);
    let mut code = vec![0u8; pq.code_bytes()];
    let mut recon = vec![F32(0.0); dim];
    let q = make_data(1, dim, 42);
    for i in 0..50 {
        let x = &train[i * dim..(i + 1) * dim];
        pq.encode(x, &mut code);
        pq.reconstruct(&code, &mut recon);
        let ref_d = sq_l2(&q, &recon).0;
        let adc_d = pq.adc_sq_distance(&q, &code).0;
        let rel = (ref_d - adc_d).abs() / ref_d.max(1e-6);
        assert!(rel < 1e-4, "ADC mismatch ref={ref_d} adc={adc_d}");
    }
}

#[test]
fn rpq2_bucket_scorer_matches_naive() {
    let mut rng = Rng::new(6);
    let dim = 16;
    let train = make_data(400, dim, 8);
    let rpq = Rpq2::train::<F64>(&train, dim, 4, 4, 6, &mut rng);
    let n = 200;
    let db = &train[..n * dim];
    let cb = rpq.code_bytes();
    let mut codes = vec![0u8; n * cb];
    for i in 0..n {
        rpq.encode(&db[i * dim..(i + 1) * dim], &mut codes[i * cb..(i + 1) * cb]);
    }
    let scorer = Rpq2Scorer::new(&rpq, &codes);
    let query = make_data(1, dim, 999);
    let mut out = vec![F32(0.0); n];
    scorer.score_all(&query, &mut out);
    for i in 0..n {
        let naive = rpq.adc_sq_distance(&query, &codes[i * cb..(i + 1) * cb]).0;
        let rel = (out[i].0 - naive).abs() / naive.max(1e-6);
        assert!(rel < 1e-4, "scorer mismatch at {i}: bucket={} naive={}", out[i].0, naive);
    }
}

#[test]
fn rng_gives_exact_draws() {
    let mut rng = Rng::new(1);
    let x: u64 = 1 ^ (1 << 25);
    let x = x ^ (x >> 27);
    assert_eq!(rng.next_u64(), x.wrapping_mul(0x2545_F491_4F6C_DD1D));
    let mut zero = Rng::new(0);
    let mut fixed = Rng::new(0x9E37_79B9_7F4A_7C15);
    assert_eq!(zero.next_u64(), fixed.next_u64());
    assert_eq!(zero.next_f32() as u64, fixed.next_u64() >> 40);
    let mut copy = fixed.clone();
    assert_eq!(copy.next_u64(), fixed.next_u64());
}

#[test]
fn brute_topk_orders_by_distance_and_position() {
    let data = wrap(&[3.0, 0.0, -1.0, 1.0]);
    assert_eq!(brute_topk(&wrap(&[0.0]), &data, 1, 3), vec![1, 2, 3]);
}

#[test]
fn recall_is_the_share_of_the_truth() {
    let r: F32 = recall_at_k(&[1, 2, 3, 4], &[4, 9, 1, 8]);
    assert_eq!(r, F32(0.5));
}

#[test]
fn smallest_scores_come_first() {
    let scores = wrap(&[0.5, 0.25, 0.75, 0.25]);
    assert_eq!(topk_from_scores(&scores, 3), vec![1, 3, 0]);
}

#[test]
fn scoring_with_one_table_changes_nothing() {
    let mut rng = Rng::new(12);
    let dim = 8;
    let train = make_data(300, dim, 13);
    let pq = Pq::train::<F64>(&train, dim, 4, 3, &mut rng);
    assert_eq!((pq.m(), pq.k(), pq.sub_dim()), (4, 256, 2));
    assert_eq!(pq.codebook(1).len(), 256 * 2);
    let codes = encode_all(&pq, &train, dim);
    assert_eq!(codes.len(), 300 * 4);
    let query = make_data(1, dim, 14);
    let slow = score_codes(&pq, &query, &codes);
    let fast = score_codes_once(&pq, &query, &codes);
    assert_eq!(slow, fast);
    assert_eq!(slow.len(), 300);
}

#[test]
fn quantizers_have_names_and_dimensions() {
    let mut rng = Rng::new(15);
    let train = make_data(300, 8, 16);
    let pq = Pq::train::<F64>(&train, 8, 2, 1, &mut rng);
    let rpq = Rpq2::train::<F64>(&train, 8, 2, 4, 1, &mut rng);
    let sq = Sq8::train(&train, 8);
    assert_eq!(Quantizer::name(&pq), "pq");
    assert_eq!(rpq.name(), "rpq2");
    assert_eq!(sq.name(), "sq8");
    assert_eq!((rpq.m1(), rpq.m2(), rpq.code_bytes()), (2, 4, 6));
    assert_eq!((Quantizer::dim(&pq), rpq.dim(), sq.dim()), (8, 8, 8));
}

#[test]
fn sq8_codes_of_known_values() {
    let train = wrap(&[0.0, 255.0, 100.0]);
    let sq = Sq8::train(&train, 1);
    let mut code = [0u8];
    for x in [0.0f32, 1.0, 100.0, 255.0] {
        sq.encode(&[F32(x)], &mut code);
        assert_eq!(code[0], x as u8);
    }
    sq.encode(&[F32(999.0)], &mut code);
    assert_eq!(code[0], 255);
    sq.encode(&[F32(-3.0)], &mut code);
    assert_eq!(code[0], 0);
}

#[test]
fn clustered_data_is_drawn_around_centres() {
    let data = make_clustered(50, 4, 3, 0xAAAA, &Normal);
    assert_eq!(data.len(), 200);
    let again = make_clustered(50, 4, 3, 0xAAAA, &Normal);
    assert_eq!(data, again);
    let mut rng = Rng::new(0xAAAA);
    let centres: Vec<F32> = (0..12).map(|_| rng.next_gauss(&Normal).times(F32(3.0))).collect();
    let c = (rng.next_u64() % 3) as usize;
    let first = centres[c * 4].plus(rng.next_gauss(&Normal).times(F32(0.5)));
    assert_eq!(data[0], first);
}
