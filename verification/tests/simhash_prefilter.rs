//! Candidate reduction by binary sketches.

use rand::rngs::StdRng;
use rand::{Rng, SeedableRng};
use rand_distr::{Distribution, Normal};
use ruvector::order;
use ruvector::scalar::Scalar;
use ruvector::simhash_prefilter::{
    recall_at_k, sq_l2, FlatPrefilterIndex, PrefilterError, Sketch, SketchFamily, SrpFamily,
};

#[derive(Clone, Copy, Debug, PartialEq, PartialOrd)]
struct F32(f32);

impl Scalar for F32 {
    fn zero() -> Self {
        F32(0.0)
    }
    fn infinity() -> Self {
        F32(f32::INFINITY)
    }
    fn ratio(num: u64, den: u64) -> Self {
        F32((num as f64 / den as f64) as f32)
    }
    fn plus(self, other: Self) -> Self {
        F32(self.0 + other.0)
    }
    fn minus(self, other: Self) -> Self {
        F32(self.0 - other.0)
    }
    fn times(self, other: Self) -> Self {
        F32(self.0 * other.0)
    }
    fn over(self, other: Self) -> Self {
        F32(self.0 / other.0)
    }
    fn sqrt(self) -> Self {
        F32(self.0.sqrt())
    }
    fn byte(self) -> u8 {
        self.0.round().clamp(0.0, 255.0) as u8
    }
    fn nearest(self) -> i64 {
        self.0.round() as i64
    }
    fn key(self) -> u64 {
        order::key(self.0.to_bits()).expect("not a number")
    }
    fn law_zero() {}
    fn law_unit(_u: u64) {}
}

#[allow(dead_code)]
fn wrap(xs: &[f32]) -> Vec<F32> {
    xs.iter().map(|&x| F32(x)).collect()
}

fn tiny_vecs() -> Vec<Vec<F32>> {
    vec![
        wrap(&[1.0, 0.0, 0.0, 0.0]),
        wrap(&[0.0, 1.0, 0.0, 0.0]),
        wrap(&[0.0, 0.0, 1.0, 0.0]),
        wrap(&[0.0, 0.0, 0.0, 1.0]),
        wrap(&[0.9, 0.1, 0.0, 0.0]),
    ]
}

#[test]
fn sketch_is_deterministic() {
    let f1 = SrpFamily::<2>::new(4, 42);
    let f2 = SrpFamily::<2>::new(4, 42);
    let v = wrap(&[0.5, -0.2, 0.7, 0.1]);
    assert_eq!(f1.sketch(&v).unwrap(), f2.sketch(&v).unwrap());
}

#[test]
fn hamming_zero_to_self() {
    let f = SrpFamily::<2>::new(4, 7);
    let v = wrap(&[0.3, 0.4, 0.5, 0.6]);
    let s = f.sketch(&v).unwrap();
    assert_eq!(s.hamming(&s), 0);
}

#[test]
fn dim_mismatch_errors() {
    let f = SrpFamily::<1>::new(4, 1);
    assert!(matches!(
        f.sketch(&wrap(&[0.0, 1.0])),
        Err(PrefilterError::DimensionMismatch { .. })
    ));
}

#[test]
fn prefilter_matches_exact_on_tiny_data() {
    let f = SrpFamily::<4>::new(4, 123);
    let idx = FlatPrefilterIndex::build(f, tiny_vecs()).unwrap();
    let q = wrap(&[0.95, 0.05, 0.0, 0.0]);
    let exact = idx.search_exact(&q, 1);
    let pre = idx.search_prefilter(&q, 1, 4).unwrap();
    assert_eq!(pre[0].0, exact[0].0);
}

fn normal_rows(rng: &mut StdRng, n: usize, dim: usize) -> Vec<Vec<F32>> {
    let normal = Normal::new(0.0f32, 1.0).unwrap();
    (0..n).map(|_| (0..dim).map(|_| F32(normal.sample(rng))).collect()).collect()
}

#[test]
fn recall_monotone_in_candidate_mult() {
    let mut rng = StdRng::seed_from_u64(0xC0FFEE);
    let dim = 32;
    let n = 500;
    let vectors = normal_rows(&mut rng, n, dim);
    let queries = normal_rows(&mut rng, 20, dim);
    let idx = FlatPrefilterIndex::build(SrpFamily::<2>::new(dim, 42), vectors).unwrap();
    let k = 10;
    let mut prev = 0.0;
    for &mult in &[2usize, 5, 10, 25] {
        let mut r_sum = 0.0;
        for q in &queries {
            let truth = idx.search_exact(q, k);
            let pre = idx.search_prefilter(q, k, mult).unwrap();
            r_sum += recall_at_k(&pre, &truth).0;
        }
        let r = r_sum / queries.len() as f32;
        assert!(
            r + 1e-6 >= prev,
            "recall should be non-decreasing in candidate multiplier: {r} < {prev}"
        );
        prev = r;
    }
    assert!(prev >= 0.999, "recall at mult=25 was {prev}");
}

#[test]
fn hamming_counts_differing_bits() {
    let zero = Sketch::<2>::zero();
    let a = Sketch { words: [0b1011u64, u64::MAX] };
    let b = Sketch { words: [0b0010u64, u64::MAX] };
    assert_eq!(zero.hamming(&a), 67);
    assert_eq!(a.hamming(&zero), 67);
    assert_eq!(a.hamming(&b), 2);
    assert_eq!(Sketch::<2>::width(), 128);
    assert_eq!(zero.words, [0, 0]);
}

#[test]
fn family_takes_its_signs_from_the_standard_generator() {
    let dim = 3;
    let f = SrpFamily::<1>::new(dim, 99);
    assert_eq!(f.matrix_bytes(), 64 * dim);
    let mut rng = StdRng::seed_from_u64(99);
    let signs: Vec<f32> =
        (0..64 * dim).map(|_| if rng.gen_bool(0.5) { 1.0 } else { -1.0 }).collect();
    let v = [0.5f32, -2.0, 0.25];
    let s = f.sketch(&wrap(&v)).unwrap();
    for b in 0..64 {
        let mut acc = 0.0f32;
        for i in 0..dim {
            acc += signs[b * dim + i] * v[i];
        }
        assert_eq!((s.words[0] >> b) & 1 == 1, acc >= 0.0, "bit {b}");
    }
    assert_eq!(SketchFamily::<F32, 1>::dim(&f), 3);
    assert_eq!(<SrpFamily<4> as SketchFamily<F32, 4>>::sketch_bytes(), 32);
}

#[test]
fn all_candidates_give_the_exact_result() {
    let mut rng = StdRng::seed_from_u64(5);
    let vectors = normal_rows(&mut rng, 60, 8);
    let queries = normal_rows(&mut rng, 5, 8);
    let idx = FlatPrefilterIndex::build(SrpFamily::<1>::new(8, 3), vectors).unwrap();
    assert_eq!(idx.len(), 60);
    assert!(!idx.is_empty());
    assert_eq!(idx.sketch_footprint_bytes(), 60 * 8);
    assert_eq!(idx.raw_footprint_bytes(), 60 * 8 * 4);
    for q in &queries {
        let exact = idx.search_exact(q, 6);
        let pre = idx.search_prefilter(q, 6, 10).unwrap();
        assert_eq!(pre, exact);
        assert_eq!(recall_at_k(&pre, &exact), F32(1.0));
    }
}

#[test]
fn prefilter_reports_no_more_than_the_candidates() {
    let idx = FlatPrefilterIndex::build(SrpFamily::<1>::new(4, 3), tiny_vecs()).unwrap();
    let q = wrap(&[1.0, 0.0, 0.0, 0.0]);
    assert_eq!(idx.search_prefilter(&q, 2, 1).unwrap().len(), 2);
    assert_eq!(idx.search_prefilter(&q, 5, 1).unwrap().len(), 5);
    assert_eq!(idx.search_prefilter(&q, 1, 5).unwrap().len(), 1);
    assert!(idx.search_prefilter(&q, 0, 9).unwrap().is_empty());
    let short = wrap(&[1.0]);
    assert!(idx.search_prefilter(&short, 3, 0).unwrap().is_empty());
    assert_eq!(
        idx.search_prefilter(&short, 3, 1),
        Err(PrefilterError::DimensionMismatch { expected: 4, got: 1 })
    );
}

#[test]
fn more_candidates_than_vectors_are_an_error() {
    let family = SrpFamily::<1>::new(1, 1);
    let idx = FlatPrefilterIndex::build(family, vec![wrap(&[1.0]), wrap(&[2.0])]).unwrap();
    assert_eq!(
        idx.search_prefilter(&wrap(&[1.0]), 1, 3),
        Err(PrefilterError::NotEnoughCandidates { m: 3, n: 2 })
    );
    assert_eq!(
        idx.search_prefilter(&wrap(&[1.0, 2.0]), 3, 1),
        Err(PrefilterError::NotEnoughCandidates { m: 3, n: 2 })
    );
    assert_eq!(idx.search_prefilter(&wrap(&[1.0]), 1, 2).unwrap(), vec![(0, F32(0.0))]);
    let none: Vec<Vec<F32>> = vec![];
    let empty = FlatPrefilterIndex::build(SrpFamily::<1>::new(1, 1), none).unwrap();
    assert_eq!(
        empty.search_prefilter(&wrap(&[1.0]), 1, 1),
        Err(PrefilterError::NotEnoughCandidates { m: 1, n: 0 })
    );
}

#[test]
fn build_fails_at_the_first_misfit() {
    let vectors = vec![wrap(&[1.0, 2.0]), wrap(&[1.0]), wrap(&[1.0, 2.0, 3.0])];
    let r = FlatPrefilterIndex::build(SrpFamily::<1>::new(2, 3), vectors);
    assert_eq!(r.err(), Some(PrefilterError::DimensionMismatch { expected: 2, got: 1 }));
}

#[test]
fn prefilter_errors_show_their_messages() {
    assert_eq!(
        PrefilterError::DimensionMismatch { expected: 4, got: 2 }.message(),
        "dimension mismatch: expected 4, got 2"
    );
    assert_eq!(
        PrefilterError::NotEnoughCandidates { m: 12, n: 5 }.message(),
        "candidate multiplier (12) exceeds index size (5)"
    );
}

#[test]
fn found_share_of_the_truth() {
    let truth = vec![(1, F32(0.0)), (2, F32(0.0))];
    assert_eq!(recall_at_k(&[(2, F32(0.0)), (7, F32(0.0))], &truth), F32(0.5));
    assert_eq!(recall_at_k(&[(2, F32(0.0)), (2, F32(0.0))], &truth), F32(0.5));
    assert_eq!(recall_at_k(&truth, &[]), F32(1.0));
    assert_eq!(sq_l2(&wrap(&[1.0]), &wrap(&[3.0])), F32(4.0));
}

#[test]
fn zero_vector_sets_every_bit() {
    for seed in [0, 7, 99] {
        let f = SrpFamily::<2>::new(5, seed);
        let s = f.sketch(&wrap(&[0.0; 5])).unwrap();
        assert_eq!(s.words, [u64::MAX, u64::MAX]);
    }
}
