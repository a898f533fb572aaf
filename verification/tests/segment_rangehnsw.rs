//! Range-filtered search over a tree of graphs.

use ruvector::metric::SqL2;
use ruvector::noise::Noise;
use ruvector::order;
use ruvector::scalar::Scalar;
use ruvector::segment_rangehnsw::dist::{l2_sq, Lcg};
use ruvector::segment_rangehnsw::samples::{gen_points, gen_query_ranges, recall};
use ruvector::segment_rangehnsw::{brute_force_range, Graph, Point, SegmentRangeIndex};

#[derive(Clone, Copy, Debug, PartialEq, PartialOrd)]
struct F32(f32);

impl Scalar for F32 {
    fn zero() -> Self {
        F32(0.0)
    }
    fn infinity() -> Self {
        F32(f32::INFINITY)
    }
    fn ratio(num: u64, den: u64) -> Self {
        F32((num as f64 / den as f64) as f32)
    }
    fn plus(self, other: Self) -> Self {
        F32(self.0 + other.0)
    }
    fn minus(self, other: Self) -> Self {
        F32(self.0 - other.0)
    }
    fn times(self, other: Self) -> Self {
        F32(self.0 * other.0)
    }
    fn over(self, other: Self) -> Self {
        F32(self.0 / other.0)
    }
    fn sqrt(self) -> Self {
        F32(self.0.sqrt())
    }
    fn byte(self) -> u8 {
        self.0.round().clamp(0.0, 255.0) as u8
    }
    fn nearest(self) -> i64 {
        self.0.round() as i64
    }
    fn key(self) -> u64 {
        order::key(self.0.to_bits()).expect("not a number")
    }
    fn law_zero() {}
    fn law_unit(_u: u64) {}
}

#[allow(dead_code)]
fn wrap(xs: &[f32]) -> Vec<F32> {
    xs.iter().map(|&x| F32(x)).collect()
}

/// Normal samples by the transform of Box and Muller.
struct Normal;

impl Noise<F32> for Normal {
    fn normal(&self, u1: u32, u2: u32) -> F32 {
        let u1 = (u1 as f32 / (1u64 << 24) as f32).max(1e-9).min(1.0 - 1e-9);
        let u2 = u2 as f32 / (1u64 << 24) as f32;
        let r = (-2.0 * u1.ln()).sqrt();
        let theta = 2.0 * std::f32::consts::PI * u2;
        F32(r * theta.cos())
    }
}

fn value(key: u64) -> f32 {
    f32::from_bits(order::bits_of_key(key))
}

fn unit(rng: &mut Lcg) -> f32 {
    rng.next_f32() as f32 / (1u64 << 24) as f32
}

fn make_points(n: usize, d: usize, seed: u64) -> Vec<Point<F32>> {
    let mut rng = Lcg::new(seed);
    (0..n)
        .map(|i| {
            let v: Vec<F32> = (0..d).map(|_| rng.next_gauss(&Normal)).collect();
            let key = F32(unit(&mut rng)).key();
            (i as u32, key, v)
        })
        .collect()
}

#[test]
fn segment_index_returns_only_in_range_results() {
    let pts = make_points(800, 16, 7);
    let idx = SegmentRangeIndex::build(pts.clone(), 64, 12, 32, SqL2);
    let mut rng = Lcg::new(99);
    let q: Vec<F32> = (0..16).map(|_| rng.next_gauss(&Normal)).collect();
    let (lo, hi) = (0.2f32, 0.6f32);
    let res = idx.search(&q, 10, F32(lo).key(), F32(hi).key(), 32);
    assert!(!res.is_empty(), "segment index returned no results in a wide range");
    for (_d, _gid, key) in &res {
        let key = value(*key);
        assert!(key >= lo && key <= hi, "out-of-range key leaked: {}", key);
    }
}

#[test]
fn segment_index_recall_against_brute_force() {
    let n = 800;
    let d = 16;
    let pts = make_points(n, d, 11);
    let idx = SegmentRangeIndex::build(pts.clone(), 64, 16, 64, SqL2);
    let mut rng = Lcg::new(123);
    let mut recall_sum = 0.0f32;
    let queries = 30;
    let k = 10;
    for _ in 0..queries {
        let q: Vec<F32> = (0..d).map(|_| rng.next_gauss(&Normal)).collect();
        let a = unit(&mut rng);
        let b = unit(&mut rng);
        let (lo, hi) = (F32(a.min(b)).key(), F32(a.max(b)).key());
        let gt: Vec<u32> =
            brute_force_range(&SqL2, &pts, &q, lo, hi, k).into_iter().map(|x| x.1).collect();
        if gt.is_empty() {
            continue;
        }
        let got: Vec<u32> = idx.search(&q, k, lo, hi, 64).into_iter().map(|x| x.1).collect();
        let hits = gt.iter().filter(|g| got.contains(g)).count() as f32;
        recall_sum += hits / gt.len() as f32;
    }
    let recall = recall_sum / queries as f32;
    assert!(recall > 0.80, "PoC recall must clear 80% (was {:.3})", recall);
}

#[test]
fn range_lcg_gives_exact_draws() {
    let mut rng = Lcg::new(0);
    assert_eq!(rng.0, 1);
    assert_eq!(rng.next_u64(), 6364136223846793005u64 + 1442695040888963407);
    let mut other = Lcg::new(0);
    assert_eq!(
        other.next_f32() as u64,
        (6364136223846793005u64 + 1442695040888963407) >> 40
    );
}

#[test]
fn brute_force_keeps_to_the_window() {
    let pts: Vec<Point<F32>> = (0..6u32)
        .map(|i| (10 + i, F32(i as f32).key(), wrap(&[(i % 3) as f32])))
        .collect();
    let hits = brute_force_range(&SqL2, &pts, &wrap(&[0.0]), F32(1.0).key(), F32(4.0).key(), 3);
    let ids: Vec<u32> = hits.iter().map(|h| h.1).collect();
    assert_eq!(ids, vec![13, 11, 14]);
    assert_eq!(value(hits[1].0), 1.0);
    assert_eq!(value(hits[0].2), 3.0);
    let none = brute_force_range(&SqL2, &pts, &wrap(&[0.0]), F32(7.0).key(), F32(9.0).key(), 3);
    assert!(none.is_empty());
}

#[test]
fn narrow_windows_and_small_indexes() {
    let pts = make_points(20, 4, 3);
    let idx = SegmentRangeIndex::build(pts.clone(), 64, 4, 16, SqL2);
    assert_eq!(idx.len(), 20);
    assert!(!idx.is_empty());
    let (min, max) = idx.range();
    let mut keys: Vec<u64> = pts.iter().map(|p| p.1).collect();
    keys.sort();
    assert_eq!((min, max), (keys[0], keys[19]));
    let q = wrap(&[0.0; 4]);
    for p in &pts {
        let hits = idx.search(&q, 5, p.1, p.1, 16);
        assert_eq!(hits.len(), 1);
        assert_eq!(hits[0].1, p.0);
    }
    assert!(idx.search(&q, 5, max + 1, max + 2, 16).is_empty());
    assert!(idx.memory_bytes() >= 20 * 4 * 4);
    let none: Vec<Point<F32>> = vec![];
    let empty = SegmentRangeIndex::build(none, 4, 4, 16, SqL2);
    assert!(empty.is_empty());
    assert!(empty.search(&q, 5, 0, u64::MAX, 16).is_empty());
    assert_eq!(empty.range(), (order::ZERO_KEY, order::ZERO_KEY));
}

#[test]
fn wide_beams_find_what_the_graph_reaches() {
    let pts = make_points(100, 4, 5);
    let vectors: Vec<Vec<F32>> = pts.iter().map(|p| p.2.clone()).collect();
    let ids: Vec<u32> = pts.iter().map(|p| p.0).collect();
    let keys: Vec<u64> = pts.iter().map(|p| p.1).collect();
    let g = Graph::build(vectors, ids, keys, 8, 32, SqL2);
    for (i, list) in g.neighbors.iter().enumerate() {
        assert!(list.len() <= 16);
        assert!(!list.contains(&(i as u32)));
    }
    let q = wrap(&[0.0; 4]);
    let all = g.search(&q, 100);
    let (lo, hi) = (F32(0.25).key(), F32(0.5).key());
    let some = g.search_range_prefilter(&q, 100, lo, hi);
    let want: Vec<u32> =
        all.iter().filter(|h| lo <= h.2 && h.2 <= hi).map(|h| h.1).collect();
    let got: Vec<u32> = some.iter().map(|h| h.1).collect();
    assert_eq!(got, want);
    let inner = g.search_internal(&q, 100, &[3]);
    assert!(inner.iter().all(|x| x.1 != 3));
    assert!(g.memory_bytes() >= 100 * 4 * 4);
}

#[test]
fn generated_points_follow_the_draws() {
    let pts = gen_points(5, 3, 42, &Normal);
    let mut rng = Lcg::new(42);
    for (i, p) in pts.iter().enumerate() {
        assert_eq!(p.0, i as u32);
        for x in &p.2 {
            assert_eq!(*x, rng.next_gauss(&Normal));
        }
        assert_eq!(value(p.1), unit(&mut rng));
    }
    let windows = gen_query_ranges(4, F32(0.25), 13);
    let mut rng = Lcg::new(13);
    for (lo, hi) in windows {
        let start = unit(&mut rng) * 0.75;
        assert_eq!(lo, F32(start));
        assert_eq!(hi, F32(start + 0.25));
    }
}

#[test]
fn share_of_true_numbers() {
    let r: F32 = recall(&[1, 2, 3, 4], &[4, 2, 9]);
    assert_eq!(r, F32(0.5));
    let one: F32 = recall(&[], &[1]);
    assert_eq!(one, F32(1.0));
    assert_eq!(l2_sq(&wrap(&[0.0, 3.0]), &wrap(&[4.0, 0.0])), F32(25.0));
}

#[test]
fn small_indexes_answer_as_the_scan() {
    for (n, m, leaf) in [(9, 4, 2), (25, 12, 4), (3, 1, 1)] {
        let pts = make_points(n, 4, 21);
        let idx = SegmentRangeIndex::build(pts.clone(), leaf, m, 1, SqL2);
        let mut rng = Lcg::new(4);
        for _ in 0..20 {
            let q: Vec<F32> = (0..4).map(|_| rng.next_gauss(&Normal)).collect();
            let a = unit(&mut rng);
            let b = unit(&mut rng);
            let (lo, hi) = (F32(a.min(b)).key(), F32(a.max(b)).key());
            for k in [1, 3, n] {
                let got: Vec<u64> =
                    idx.search(&q, k, lo, hi, n).into_iter().map(|h| h.0).collect();
                let want: Vec<u64> = brute_force_range(&SqL2, &pts, &q, lo, hi, k)
                    .into_iter()
                    .map(|h| h.0)
                    .collect();
                assert_eq!(got, want);
            }
        }
    }
}

#[test]
fn graph_bytes_count_the_room() {
    let pts = make_points(30, 5, 8);
    let mut vectors: Vec<Vec<F32>> = pts.iter().map(|p| p.2.clone()).collect();
    vectors[3].reserve_exact(100);
    let ids: Vec<u32> = pts.iter().map(|p| p.0).collect();
    let keys: Vec<u64> = pts.iter().map(|p| p.1).collect();
    let g = Graph::build(vectors, ids, keys, 4, 16, SqL2);
    let edges: usize = g.neighbors.iter().map(|v| v.capacity()).sum();
    let components: usize = g.vectors.iter().map(|v| v.capacity()).sum();
    assert!(components >= 29 * 5 + 105);
    assert_eq!(
        g.memory_bytes(),
        4 * (edges + components + g.global_ids.capacity() + g.keys.capacity())
    );
}
