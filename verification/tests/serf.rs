//! Nearest neighbours among points with an attribute in a range.

use std::sync::Arc;

use rand::rngs::StdRng;
use rand::{Rng, SeedableRng};
use rand_distr::{Distribution, StandardNormal};
use ruvector::order;
use ruvector::scalar::Scalar;
use ruvector::serf::data::{in_range, sq_l2};
use ruvector::serf::flat::Flat;
use ruvector::serf::graph::{nearest_points, top_k, Graph};
use ruvector::serf::linear::LinearPrefilter;
use ruvector::serf::nsw::{Nsw, NswParams};
use ruvector::serf::nsw_post::NswPost;
use ruvector::serf::post_filter::PostFilterNsw;
use ruvector::serf::range::{recall, Range, RangeSearch};
use ruvector::serf::segment::SegmentGraph;
use ruvector::serf::serf::SerfIndex;
use ruvector::serf::{recall_at_k, Dataset, Hit, Query, RangeAnn};

#[derive(Clone, Copy, Debug, PartialEq, PartialOrd)]
struct F32(f32);

impl Scalar for F32 {
    fn zero() -> Self {
        F32(0.0)
    }
    fn infinity() -> Self {
        F32(f32::INFINITY)
    }
    fn ratio(num: u64, den: u64) -> Self {
        F32((num as f64 / den as f64) as f32)
    }
    fn plus(self, other: Self) -> Self {
        F32(self.0 + other.0)
    }
    fn minus(self, other: Self) -> Self {
        F32(self.0 - other.0)
    }
    fn times(self, other: Self) -> Self {
        F32(self.0 * other.0)
    }
    fn over(self, other: Self) -> Self {
        F32(self.0 / other.0)
    }
    fn sqrt(self) -> Self {
        F32(self.0.sqrt())
    }
    fn byte(self) -> u8 {
        self.0.round().clamp(0.0, 255.0) as u8
    }
    fn nearest(self) -> i64 {
        self.0.round() as i64
    }
    fn key(self) -> u64 {
        order::key(self.0.to_bits()).expect("not a number")
    }
    fn law_zero() {}
    fn law_unit(_u: u64) {}
}

#[allow(dead_code)]
fn wrap(xs: &[f32]) -> Vec<F32> {
    xs.iter().map(|&x| F32(x)).collect()
}

const D: usize = 16;
const N: usize = 600;

fn lcg(seed: &mut u64) -> f32 {
    *seed = seed.wrapping_mul(6364136223846793005).wrapping_add(1442695040888963407);
    ((*seed >> 33) as u32 as f32) / (u32::MAX as f32) * 2.0 - 1.0
}

fn make_dataset() -> (Vec<Vec<F32>>, Vec<F32>) {
    let mut s = 0xDEADBEEFu64;
    let vectors: Vec<Vec<F32>> =
        (0..N).map(|_| (0..D).map(|_| F32(lcg(&mut s))).collect()).collect();
    let keys: Vec<F32> = (0..N).map(|i| F32(i as f32 / N as f32)).collect();
    (vectors, keys)
}

fn normals(rng: &mut StdRng, count: usize) -> Vec<F32> {
    (0..count)
        .map(|_| {
            let x: f32 = StandardNormal.sample(rng);
            F32(x)
        })
        .collect()
}

fn random_gaussian(n: usize, dim: usize, seed: u64) -> Dataset<F32> {
    let mut rng = StdRng::seed_from_u64(seed);
    let draws = normals(&mut rng, n * dim);
    Dataset::random_gaussian(n, dim, &draws)
}

fn random_queries(ds: &Dataset<F32>, q: usize, frac: f32, seed: u64) -> Vec<Query<F32>> {
    let mut rng = StdRng::seed_from_u64(seed);
    let bound = ds.start_bound(F32(frac)).0;
    let mut draws = Vec::new();
    let mut starts = Vec::new();
    for _ in 0..q {
        draws.extend(normals(&mut rng, ds.dim));
        starts.push(F32(rng.gen_range(0.0..bound)));
    }
    ds.random_queries(q, F32(frac), &draws, &starts)
}

fn query(dim: usize, lo: f32, hi: f32) -> Query<F32> {
    Query { vec: wrap(&vec![0.0; dim]), lo: F32(lo), hi: F32(hi) }
}

#[test]
fn dist_zero_on_self() {
    let v = wrap(&[1.0, 2.0, 3.0, 4.0, 5.0]);
    assert!(sq_l2(&v, &v).0 < 1e-6);
}

#[test]
fn dist_pythagoras() {
    let a = wrap(&[0.0, 0.0]);
    let b = wrap(&[3.0, 4.0]);
    assert!((sq_l2(&a, &b).0 - 25.0).abs() < 1e-6);
}

#[test]
fn dataset_random_shapes() {
    let ds = random_gaussian(100, 8, 42);
    assert_eq!(ds.len(), 100);
    assert_eq!(ds.points[0].vec.len(), 8);
    assert_eq!(ds.points[99].attr.0, 99.0);
}

#[test]
fn queries_have_valid_ranges() {
    let ds = random_gaussian(1_000, 4, 1);
    let qs = random_queries(&ds, 20, 0.1, 7);
    assert_eq!(qs.len(), 20);
    for q in &qs {
        assert!(q.lo.0 <= q.hi.0);
        assert!(q.lo.0 >= 0.0);
        assert!(q.hi.0 < 1000.0);
    }
}

#[test]
fn in_range_inclusive() {
    assert!(in_range(F32(5.0), F32(0.0), F32(10.0)));
    assert!(in_range(F32(0.0), F32(0.0), F32(10.0)));
    assert!(in_range(F32(10.0), F32(0.0), F32(10.0)));
    assert!(!in_range(F32(11.0), F32(0.0), F32(10.0)));
}

#[test]
fn knn_graph_is_symmetric() {
    let ds = random_gaussian(200, 8, 1);
    let g = Graph::build_knn(&ds.points, 8);
    for u in 0..ds.len() {
        for &v in &g.neighbors[u] {
            assert!(
                g.neighbors[v as usize].contains(&(u as u32)),
                "edge ({u},{v}) not reciprocated"
            );
        }
    }
}

#[test]
fn knn_graph_neighbors_are_close() {
    let ds = random_gaussian(200, 8, 2);
    let g = Graph::build_knn(&ds.points, 4);
    let u = 7;
    let mean_nbr = g.neighbors[u]
        .iter()
        .map(|&v| sq_l2(&ds.points[u].vec, &ds.points[v as usize].vec).0)
        .sum::<f32>()
        / g.neighbors[u].len() as f32;
    let mean_random = (0..ds.len())
        .step_by(11)
        .map(|j| sq_l2(&ds.points[u].vec, &ds.points[j].vec).0)
        .sum::<f32>()
        / ((ds.len() + 10) / 11) as f32;
    assert!(
        mean_nbr < mean_random,
        "neighbors should be closer than random ({mean_nbr} vs {mean_random})"
    );
}

#[test]
fn linear_respects_range() {
    let ds = random_gaussian(500, 8, 3);
    let lin = LinearPrefilter::new(&ds);
    let q = query(8, 100.0, 199.0);
    let hits = lin.search(&q, 10);
    for h in &hits {
        let attr = ds.points[h.id as usize].attr.0;
        assert!(attr >= 100.0 && attr <= 199.0, "id {} attr {} out of range", h.id, attr);
    }
}

#[test]
fn linear_returns_sorted() {
    let ds = random_gaussian(500, 8, 4);
    let lin = LinearPrefilter::new(&ds);
    let q = query(8, 0.0, 499.0);
    let hits = lin.search(&q, 10);
    for w in hits.windows(2) {
        assert!(w[0].dist <= w[1].dist);
    }
}

#[test]
fn post_filter_returns_in_range_only() {
    let ds = random_gaussian(500, 8, 5);
    let g = Graph::build_knn(&ds.points, 8);
    let idx = PostFilterNsw::new(&ds, g, 32);
    let q = query(8, 200.0, 299.0);
    let hits = idx.search(&q, 10);
    for h in &hits {
        let a = ds.points[h.id as usize].attr.0;
        assert!(a >= 200.0 && a <= 299.0);
    }
}

#[test]
fn serf_returns_in_range() {
    let ds = random_gaussian(1_000, 16, 11);
    let g = Graph::build_knn(&ds.points, 16);
    let idx = SerfIndex::new(&ds, g, 64);
    let q = query(16, 100.0, 199.0);
    let hits = idx.search(&q, 10);
    assert!(!hits.is_empty());
    for h in &hits {
        let a = ds.points[h.id as usize].attr.0;
        assert!(a >= 100.0 && a <= 199.0);
    }
}

#[test]
fn serf_achieves_reasonable_recall() {
    let ds = random_gaussian(2_000, 16, 12);
    let g = Graph::build_knn(&ds.points, 16);
    let serf = SerfIndex::new(&ds, g, 64);
    let truth_idx = LinearPrefilter::new(&ds);
    let qs = random_queries(&ds, 20, 0.2, 13);
    let mut total = 0.0;
    for q in &qs {
        let truth = truth_idx.search(q, 10);
        let cand = serf.search(q, 10);
        total += recall_at_k(&truth, &cand, 10).0;
    }
    let avg = total / qs.len() as f32;
    assert!(avg >= 0.7, "serf recall@10 too low: {avg}");
}

#[test]
fn segment_graph_respects_range() {
    let (vectors, keys) = make_dataset();
    let varc = Arc::new(vectors);
    let params = NswParams::default();
    let seg = SegmentGraph::build(varc.clone(), keys.clone(), params, 64);
    let q = wrap(&[0.0f32; D]);
    let range = Range { lo: F32(0.3), hi: F32(0.6) };
    let res = seg.search(&q, range, 20);
    assert!(!res.is_empty());
    for (id, _) in &res {
        assert!(
            keys[*id] >= range.lo && keys[*id] <= range.hi,
            "id {id} key {:?} outside range {:?}",
            keys[*id],
            range
        );
    }
}

#[test]
fn segment_graph_recall_matches_flat_full_range() {
    let (vectors, keys) = make_dataset();
    let varc = Arc::new(vectors.clone());
    let params = NswParams { m: 16, ef_construction: 64, ef_search: 64 };
    let flat = Flat::new(vectors, keys.clone());
    let seg = SegmentGraph::build(varc, keys, params, 64);
    let mut s = 0xABCDu64;
    let mut total = 0.0f32;
    let nq = 25;
    let range = Range { lo: F32(0.0), hi: F32(1.0) };
    for _ in 0..nq {
        let q: Vec<F32> = (0..D).map(|_| F32(lcg(&mut s))).collect();
        let truth = flat.search(&q, range, 10);
        let got = seg.search(&q, range, 10);
        total += recall(&got, &truth).0;
    }
    let avg = total / nq as f32;
    assert!(avg >= 0.80, "segment-graph recall@10 on full range = {avg}");
}

#[test]
fn nsw_postfilter_correctness_on_full_range() {
    let (vectors, keys) = make_dataset();
    let varc = Arc::new(vectors.clone());
    let params = NswParams::default();
    let flat = Flat::new(vectors, keys.clone());
    let nsw = NswPost::build(varc, keys, params, 4);
    let mut s = 0x9999u64;
    let q: Vec<F32> = (0..D).map(|_| F32(lcg(&mut s))).collect();
    let range = Range { lo: F32(0.0), hi: F32(1.0) };
    let truth = flat.search(&q, range, 10);
    let got = nsw.search(&q, range, 10);
    assert!(recall(&got, &truth).0 >= 0.7);
}

#[test]
fn flat_top1_is_globally_nearest_within_range() {
    let (vectors, keys) = make_dataset();
    let flat = Flat::new(vectors.clone(), keys.clone());
    let q = wrap(&[0.5f32; D]);
    let range = Range { lo: F32(0.2), hi: F32(0.8) };
    let got = flat.search(&q, range, 1);
    let best = got[0].0;
    let mut bf: Vec<(usize, f32)> = (0..N)
        .filter(|i| range.contains(keys[*i]))
        .map(|i| {
            let v = &vectors[i];
            let d: f32 = q.iter().zip(v).map(|(a, b)| (a.0 - b.0).powi(2)).sum();
            (i, d)
        })
        .collect();
    bf.sort_by(|a, b| a.1.partial_cmp(&b.1).unwrap());
    assert_eq!(best, bf[0].0);
}

#[test]
fn serf_falls_back_to_the_scan() {
    let ds = random_gaussian(300, 8, 21);
    let g = Graph::build_knn(&ds.points, 2);
    let serf = SerfIndex::new(&ds, g, 4);
    let lin = LinearPrefilter::new(&ds);
    let q = query(8, 100.0, 149.5);
    assert_eq!(serf.search(&q, 20), lin.search(&q, 20));
    assert_eq!(serf.search(&q, 90).len(), 50);
    assert_eq!(serf.search(&q, 3).len(), 3);
    assert!(serf.search(&query(8, 400.0, 500.0), 3).is_empty());
    assert!(serf.search(&q, 0).is_empty());
}

#[test]
fn serf_starts_in_the_middle_of_the_range() {
    let ds = random_gaussian(10, 2, 22);
    let g = Graph::build_knn(&ds.points, 3);
    let serf = SerfIndex::new(&ds, g, 4);
    assert_eq!(serf.entry_for(&query(2, 2.0, 5.0)), 4);
    assert_eq!(serf.entry_for(&query(2, -9.0, -3.0)), 0);
    assert_eq!(serf.entry_for(&query(2, 50.0, 60.0)), 9);
    assert_eq!(serf.name(), "serf-edge-pruned");
}

#[test]
fn wide_graph_search_finds_everything_reachable() {
    let ds = random_gaussian(80, 4, 23);
    let g = Graph::build_knn(&ds.points, 8);
    let post = PostFilterNsw::new(&ds, g, 80);
    let lin = LinearPrefilter::new(&ds);
    let q = query(4, 20.0, 60.0);
    assert_eq!(post.search(&q, 10), lin.search(&q, 10));
    assert_eq!(post.name(), "post-filter-nsw");
    assert_eq!(lin.name(), "linear-prefilter");
}

#[test]
fn knn_graph_of_a_line() {
    let draws = wrap(&[0.0, 1.0, 3.0, 7.0]);
    let ds = Dataset::random_gaussian(4, 1, &draws);
    let g = Graph::build_knn(&ds.points, 1);
    assert_eq!(g.neighbors, vec![vec![1], vec![0, 2], vec![1, 3], vec![2]]);
    assert_eq!(g.num_edges(), 3);
    assert_eq!(g.estimated_bytes(), 4 * 24 + 6 * 4);
    assert_eq!(nearest_points(&ds.points, 3, 2), vec![2, 1]);
    let same = Graph::from_rows(vec![vec![1], vec![0], vec![1], vec![2]]);
    assert_eq!(same.neighbors, g.neighbors);
}

#[test]
fn smallest_candidates_come_first() {
    let cands = vec![(F32(2.0), 7), (F32(1.0), 8), (F32(2.0), 9)];
    assert_eq!(top_k(cands, 2), vec![(F32(1.0), 8), (F32(2.0), 7)]);
}

#[test]
fn hit_recall_compares_the_first_hits() {
    let hit = |id: u32| Hit { id, dist: F32(0.0) };
    let truth = vec![hit(1), hit(2), hit(3), hit(4)];
    assert_eq!(recall_at_k(&truth, &truth, 4), F32(1.0));
    assert_eq!(recall_at_k(&truth, &[hit(1), hit(9)], 4), F32(0.5));
    assert_eq!(recall_at_k(&truth, &[], 4), F32(0.0));
    assert_eq!(recall_at_k(&[], &truth, 4), F32(1.0));
    assert_eq!(recall_at_k(&truth, &truth, 0), F32(1.0));
}

#[test]
fn empty_collection() {
    let ds: Dataset<F32> = Dataset::new(3);
    assert!(ds.is_empty());
    assert_eq!((ds.len(), ds.dim), (0, 3));
    let lin = LinearPrefilter::new(&ds);
    assert!(lin.search(&query(3, 0.0, 1.0), 5).is_empty());
}

#[test]
fn distance_adds_four_by_four() {
    let a = wrap(&[1.0, 2.0, 3.0, 4.0, 5.0, 6.0]);
    let b = wrap(&[0.0; 6]);
    assert_eq!(sq_l2(&a, &b), F32(91.0));
}

#[test]
fn query_ranges_are_cut_at_the_last_point() {
    let ds = random_gaussian(10, 1, 3);
    assert_eq!(ds.start_bound(F32(0.3)), F32(7.0));
    let qs = ds.random_queries(2, F32(0.3), &wrap(&[0.5, 1.5]), &wrap(&[2.0, 6.5]));
    assert_eq!((qs[0].lo, qs[0].hi), (F32(2.0), F32(5.0)));
    assert_eq!((qs[1].lo, qs[1].hi), (F32(6.5), F32(9.0)));
    assert_eq!(qs[1].vec, wrap(&[1.5]));
}

#[test]
fn every_rank_of_a_range_is_searched() {
    let n = 100usize;
    let vectors: Vec<Vec<F32>> = (0..n).map(|i| wrap(&[i as f32, 0.0])).collect();
    let keys: Vec<F32> = (0..n).map(|i| F32(i as f32)).collect();
    let params = NswParams { m: 8, ef_construction: 32, ef_search: 64 };
    let flat = Flat::new(vectors.clone(), keys.clone());
    let seg = SegmentGraph::build(Arc::new(vectors), keys, params, 8);
    assert_eq!(seg.name(), "serf-segment-graph");
    assert!(seg.num_graphs() > 1);
    assert!(seg.graph_bytes() > 0);
    let q = wrap(&[50.0, 1.0]);
    for (lo, hi) in [(3.0f32, 90.0f32), (5.0, 14.0), (47.0, 53.0), (0.0, 99.0)] {
        let range = Range { lo: F32(lo), hi: F32(hi) };
        let want = flat.search(&q, range, 200);
        let got = seg.search(&q, range, 200);
        assert_eq!(got.len(), want.len(), "range {lo} to {hi}");
        assert_eq!(got, want);
    }
    let none = Range { lo: F32(200.0), hi: F32(300.0) };
    assert!(seg.search(&q, none, 5).is_empty());
    let crossed = Range { lo: F32(30.0), hi: F32(20.0) };
    assert!(seg.search(&q, crossed, 5).is_empty());
}

#[test]
fn small_graph_finds_the_nearest() {
    let vectors: Vec<Vec<F32>> = (0..20).map(|i| wrap(&[i as f32])).collect();
    let params = NswParams { m: 4, ef_construction: 16, ef_search: 16 };
    let g = Nsw::build(Arc::new(vectors), vec![2, 4, 6, 8, 10], params);
    let found = g.search(&wrap(&[7.2]), 2);
    assert_eq!(found[0].0, 8);
    assert_eq!(found[1].0, 6);
    assert_eq!(found[0].1, sq_l2(&wrap(&[7.2]), &wrap(&[8.0])));
    assert!(g.adj_bytes() >= 5 * 24);
    let empty: Nsw<F32> = Nsw::build(Arc::new(vec![]), vec![], NswParams::default());
    assert!(empty.search(&wrap(&[1.0]), 3).is_empty());
}

#[test]
fn post_filtered_graph_keeps_to_the_range() {
    let (vectors, keys) = make_dataset();
    let nsw = NswPost::build(Arc::new(vectors), keys.clone(), NswParams::default(), 8);
    let range = Range { lo: F32(0.4), hi: F32(0.5) };
    let got = nsw.search(&wrap(&[0.0; D]), range, 10);
    assert!(got.len() <= 10);
    for (id, _) in &got {
        assert!(range.contains(keys[*id]));
    }
    assert_eq!(nsw.name(), "nsw-postfilter");
    assert!(nsw.graph_bytes() >= N * 24);
}

#[test]
fn default_graph_parameters() {
    let p = NswParams::default();
    assert_eq!((p.m, p.ef_construction, p.ef_search), (16, 64, 32));
}

#[test]
fn scan_orders_by_distance_and_position() {
    let flat = Flat::new(
        vec![wrap(&[2.0]), wrap(&[1.0]), wrap(&[-1.0]), wrap(&[0.0])],
        wrap(&[0.0, 1.0, 2.0, 3.0]),
    );
    let range = Range { lo: F32(0.0), hi: F32(2.0) };
    let got = flat.search(&wrap(&[0.0]), range, 2);
    assert_eq!(got, vec![(1, F32(1.0)), (2, F32(1.0))]);
    assert_eq!(flat.name(), "flat-postfilter");
    assert_eq!(recall(&got, &[]), F32(1.0));
    assert_eq!(recall(&got[..1], &got), F32(0.5));
}

fn distances(found: &[(usize, F32)]) -> Vec<u64> {
    found.iter().map(|x| x.1.key()).collect()
}

#[test]
fn small_graphs_answer_as_the_scan() {
    for (n, m, leaf) in [(9usize, 4, 2), (25, 12, 4), (3, 1, 1)] {
        let mut s = 77u64;
        let vectors: Vec<Vec<F32>> =
            (0..n).map(|_| (0..4).map(|_| F32(lcg(&mut s))).collect()).collect();
        let keys: Vec<F32> = (0..n).map(|_| F32(lcg(&mut s))).collect();
        let shared = Arc::new(vectors.clone());
        let flat = Flat::new(vectors, keys.clone());
        let wide = NswParams { m, ef_construction: 1, ef_search: n };
        let ids: Vec<u32> = (0..n as u32).collect();
        let nsw = Nsw::build(shared.clone(), ids, wide);
        let seg = SegmentGraph::build(shared.clone(), keys.clone(), wide, leaf);
        let narrow = NswParams { m, ef_construction: 1, ef_search: 1 };
        let post = NswPost::build(shared, keys, narrow, n);
        let all = Range { lo: F32(f32::NEG_INFINITY), hi: F32(f32::INFINITY) };
        for _ in 0..20 {
            let q: Vec<F32> = (0..4).map(|_| F32(lcg(&mut s))).collect();
            let (a, b) = (lcg(&mut s), lcg(&mut s));
            let range = Range { lo: F32(a.min(b)), hi: F32(a.max(b)) };
            for k in [1, 3, n, n + 5] {
                let want = distances(&flat.search(&q, range, k));
                assert_eq!(distances(&seg.search(&q, range, k)), want);
                assert_eq!(distances(&post.search(&q, range, k)), want);
                assert_eq!(distances(&nsw.search(&q, k)), distances(&flat.search(&q, all, k)));
            }
        }
    }
}
