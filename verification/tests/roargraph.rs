//! Proximity graphs that are built from queries.

use std::collections::HashSet;

use rand::rngs::StdRng;
use rand::{Rng, SeedableRng};
use rand_chacha::ChaCha8Rng;
use ruvector::metric::{Cosine, SqL2};
use ruvector::noise::Noise;
use ruvector::order;
use ruvector::roargraph::baseline::BaselineGraph;
use ruvector::roargraph::construct::{bfs_reachable, build_roargraph, BuildParams};
use ruvector::roargraph::dataset::{
    exact_knn, generate_ood_dataset, recall_at_k as set_recall, DatasetParams,
};
use ruvector::roargraph::distance::l2_sq;
use ruvector::roargraph::error::RoarError;
use ruvector::roargraph::graph::{l2sq, RoarGraph};
use ruvector::roargraph::samples::{gen_gauss, share_at_k};
use ruvector::roargraph::{
    cosine, gen_dataset, ground_truth, recall_at_k, AnnIndex, Entry, FlatIndex, Hit,
    KnnGraphIndex, RoarGraphIndex, XorShift,
};
use ruvector::scalar::Scalar;

#[derive(Clone, Copy, Debug, PartialEq, PartialOrd)]
struct F32(f32);

impl Scalar for F32 {
    fn zero() -> Self {
        F32(0.0)
    }
    fn infinity() -> Self {
        F32(f32::INFINITY)
    }
    fn ratio(num: u64, den: u64) -> Self {
        F32((num as f64 / den as f64) as f32)
    }
    fn plus(self, other: Self) -> Self {
        F32(self.0 + other.0)
    }
    fn minus(self, other: Self) -> Self {
        F32(self.0 - other.0)
    }
    fn times(self, other: Self) -> Self {
        F32(self.0 * other.0)
    }
    fn over(self, other: Self) -> Self {
        F32(self.0 / other.0)
    }
    fn sqrt(self) -> Self {
        F32(self.0.sqrt())
    }
    fn byte(self) -> u8 {
        self.0.round().clamp(0.0, 255.0) as u8
    }
    fn nearest(self) -> i64 {
        self.0.round() as i64
    }
    fn key(self) -> u64 {
        order::key(self.0.to_bits()).expect("not a number")
    }
    fn law_zero() {}
    fn law_unit(_u: u64) {}
}

#[allow(dead_code)]
fn wrap(xs: &[f32]) -> Vec<F32> {
    xs.iter().map(|&x| F32(x)).collect()
}

#[derive(Clone, Copy, Debug, PartialEq, PartialOrd)]
struct F64(f64);

impl Scalar for F64 {
    fn zero() -> Self {
        F64(0.0)
    }
    fn infinity() -> Self {
        F64(f64::INFINITY)
    }
    fn ratio(num: u64, den: u64) -> Self {
        F64(num as f64 / den as f64)
    }
    fn plus(self, other: Self) -> Self {
        F64(self.0 + other.0)
    }
    fn minus(self, other: Self) -> Self {
        F64(self.0 - other.0)
    }
    fn times(self, other: Self) -> Self {
        F64(self.0 * other.0)
    }
    fn over(self, other: Self) -> Self {
        F64(self.0 / other.0)
    }
    fn sqrt(self) -> Self {
        F64(self.0.sqrt())
    }
    fn byte(self) -> u8 {
        self.0.round().clamp(0.0, 255.0) as u8
    }
    fn nearest(self) -> i64 {
        self.0.round() as i64
    }
    fn key(self) -> u64 {
        let bits = self.0.to_bits();
        if bits >> 63 == 0 {
            bits + (1 << 63)
        } else {
            (1 << 63) - (bits - (1 << 63))
        }
    }
    fn law_zero() {}
    fn law_unit(_u: u64) {}
}

/// Normal samples by the transform of Box and Muller.
struct Normal;

impl Noise<F32> for Normal {
    fn normal(&self, u1: u32, u2: u32) -> F32 {
        let u1 = (u1 as f32 / (1u32 << 24) as f32).max(1e-9);
        let u2 = u2 as f32 / (1u32 << 24) as f32;
        F32((-2.0 * u1.ln()).sqrt() * (2.0 * std::f32::consts::PI * u2).cos())
    }
}

/// Normal samples whose first draw lies between 1e-7 and one.
struct OpenNormal;

impl Noise<F32> for OpenNormal {
    fn normal(&self, u1: u32, u2: u32) -> F32 {
        let u1 = (u1 as f32 / (1u32 << 24) as f32) * (1.0 - 1e-7) + 1e-7;
        let u2 = u2 as f32 / (1u32 << 24) as f32;
        F32((-2.0 * u1.ln()).sqrt() * (2.0 * std::f32::consts::PI * u2).cos())
    }
}

fn distance(key: u64) -> f32 {
    f32::from_bits(order::bits_of_key(key))
}

fn random_vecs(n: usize, dim: usize, seed: u64) -> Vec<Vec<F32>> {
    let mut rng = StdRng::seed_from_u64(seed);
    (0..n)
        .map(|_| (0..dim).map(|_| F32(rng.gen_range(-1.0f32..1.0))).collect())
        .collect()
}

#[test]
fn test_baseline_build_and_search() {
    let base = random_vecs(50, 8, 42);
    let mut idx = BaselineGraph::new(8, 10, SqL2);
    idx.add(&base).unwrap();
    idx.build(&[]).unwrap();
    let q = base[0].clone();
    let results = idx.search(&q, 5, 20).unwrap();
    assert!(!results.is_empty());
    assert_eq!(results[0].id, 0);
    assert!(distance(results[0].dist) < 1e-6);
}

#[test]
fn test_baseline_each_node_has_neighbours() {
    let base = random_vecs(30, 4, 7);
    let mut idx = BaselineGraph::new(4, 5, SqL2);
    idx.add(&base).unwrap();
    idx.build(&[]).unwrap();
    for nb_list in idx.adjacency().iter() {
        assert!(!nb_list.is_empty(), "every node should have at least one neighbour");
    }
}

#[test]
fn test_graph_is_connected_after_build() {
    let base = random_vecs(100, 16, 1);
    let queries = random_vecs(30, 16, 2);
    let mut g = RoarGraph::new(16, SqL2);
    g.add(&base).unwrap();
    let params = BuildParams { k_train: 10, max_degree: 16 };
    build_roargraph(&mut g, &queries, &params).unwrap();
    let reached = bfs_reachable(g.adjacency(), 0);
    assert_eq!(reached.len(), g.len(), "graph is not fully connected");
}

#[test]
fn test_build_requires_base_vectors() {
    let mut g = RoarGraph::new(4, SqL2);
    let queries = vec![wrap(&[1.0, 2.0, 3.0, 4.0])];
    let params = BuildParams::default();
    assert!(matches!(
        build_roargraph(&mut g, &queries, &params),
        Err(RoarError::EmptyIndex)
    ));
}

#[test]
fn test_build_requires_training_queries() {
    let base = random_vecs(20, 4, 5);
    let mut g = RoarGraph::new(4, SqL2);
    g.add(&base).unwrap();
    let params = BuildParams::default();
    assert!(matches!(
        build_roargraph(&mut g, &[], &params),
        Err(RoarError::NoTrainingQueries)
    ));
}

#[test]
fn test_roargraph_recall_gte_baseline_on_ood() {
    let params = DatasetParams {
        n_base: 500,
        dim: 16,
        n_clusters: 4,
        cluster_std: F32(0.4),
        cluster_range: F32(4.0),
        ood_shift: F32(3.0),
        seed: 77,
    };
    let ds = generate_ood_dataset(&params, 100, 50, 5, &OpenNormal);
    let ef = 30;
    let k = 5;
    let mut baseline = BaselineGraph::new(16, 16, SqL2);
    baseline.add(&ds.base).unwrap();
    baseline.build(&[]).unwrap();
    let bp = BuildParams { k_train: 10, max_degree: 16 };
    let mut g = RoarGraph::new(16, SqL2);
    g.add(&ds.base).unwrap();
    build_roargraph(&mut g, &ds.train_queries, &bp).unwrap();
    let mut baseline_recall = 0.0f64;
    let mut roar_recall = 0.0f64;
    for (qi, q) in ds.test_queries.iter().enumerate() {
        let gt = &ds.ground_truth[qi];
        let bl_res = baseline.search(q, k, ef).unwrap();
        let bl_hits = bl_res.iter().filter(|r| gt.contains(&r.id)).count();
        baseline_recall += bl_hits as f64 / gt.len() as f64;
        let rg_res = g.search(q, k, ef).unwrap();
        let rg_hits = rg_res.iter().filter(|r| gt.contains(&r.id)).count();
        roar_recall += rg_hits as f64 / gt.len() as f64;
    }
    baseline_recall /= ds.test_queries.len() as f64;
    roar_recall /= ds.test_queries.len() as f64;
    assert!(
        roar_recall >= baseline_recall,
        "RoarGraph recall@{k} ({:.1}%) < baseline ({:.1}%) — OOD advantage lost",
        roar_recall * 100.0,
        baseline_recall * 100.0
    );
}

#[test]
fn test_dataset_sizes() {
    let params = DatasetParams {
        n_base: 200,
        dim: 16,
        n_clusters: 4,
        cluster_std: F32(0.5),
        cluster_range: F32(3.0),
        ood_shift: F32(2.0),
        seed: 99,
    };
    let ds = generate_ood_dataset(&params, 50, 30, 5, &OpenNormal);
    assert_eq!(ds.base.len(), 200);
    assert_eq!(ds.train_queries.len(), 50);
    assert_eq!(ds.test_queries.len(), 30);
    assert_eq!(ds.ground_truth.len(), 30);
}

#[test]
fn test_exact_knn_correctness() {
    let corpus = vec![wrap(&[0.0, 0.0]), wrap(&[10.0, 10.0]), wrap(&[20.0, 20.0])];
    let gt = exact_knn(&wrap(&[0.0, 0.0]), &corpus, 1);
    assert!(gt.contains(&0));
}

#[test]
fn test_recall_at_k() {
    let gt: HashSet<usize> = [0, 1, 2].iter().cloned().collect();
    let all: F64 = set_recall(&[0, 1, 2], &gt);
    let one: F64 = set_recall(&[0, 5, 6], &gt);
    assert!((all.0 - 1.0).abs() < 1e-9);
    assert!((one.0 - 1.0 / 3.0).abs() < 1e-9);
}

#[test]
fn symmetric_and_zero_self() {
    let a = wrap(&[1.0, 2.0, 3.0, 4.0, 5.0]);
    let b = wrap(&[2.0, 0.0, 1.0, 4.0, 5.0]);
    assert!((l2_sq(&a, &a).0).abs() < 1e-6);
    assert!((l2_sq(&a, &b).0 - l2_sq(&b, &a).0).abs() < 1e-6);
    assert!((l2_sq(&a, &b).0 - 9.0).abs() < 1e-6);
}

#[test]
fn test_add_dimension_check() {
    let mut g = RoarGraph::new(4, SqL2);
    assert!(g.add(&[wrap(&[1.0, 2.0, 3.0, 4.0])]).is_ok());
    assert!(g.add(&[wrap(&[1.0, 2.0])]).is_err());
}

#[test]
fn test_search_requires_build() {
    let mut g = RoarGraph::new(4, SqL2);
    g.add(&[wrap(&[1.0, 2.0, 3.0, 4.0])]).unwrap();
    assert!(matches!(
        g.search(&wrap(&[1.0, 2.0, 3.0, 4.0]), 1, 10),
        Err(RoarError::NotBuilt)
    ));
}

fn tiny() -> (Vec<Entry<F32>>, Vec<Entry<F32>>) {
    gen_dataset(500, 50, 16, F32(0.4), F32(0.4), 42, &Normal)
}

#[test]
fn cosine_bounds() {
    let a = wrap(&[1.0, 0.0, 0.0]);
    let b = wrap(&[1.0, 0.0, 0.0]);
    assert!((cosine(&a, &b).0 - 1.0).abs() < 1e-6);
    let c = wrap(&[-1.0, 0.0, 0.0]);
    assert!((cosine(&a, &c).0 + 1.0).abs() < 1e-6);
    let none: Vec<F32> = vec![];
    assert_eq!(cosine(&none, &none).0, 0.0);
    assert_eq!(cosine(&wrap(&[1.0]), &wrap(&[1.0, 2.0])).0, 0.0);
}

#[test]
fn flat_matches_ground_truth() {
    let (base, queries) = tiny();
    let idx = FlatIndex::build(&base, Cosine);
    let gt = ground_truth(&base, &queries, 10, Cosine);
    for (q, g) in queries.iter().zip(gt.iter()) {
        let r = idx.search(&q.vec, 10);
        let recall: F32 = recall_at_k(&r, g);
        assert!((recall.0 - 1.0).abs() < 1e-6);
        assert_eq!(r.len(), 10);
    }
}

#[test]
fn knn_graph_beats_random() {
    let (base, queries) = tiny();
    let idx = KnnGraphIndex::build(&base, 12, 32, 8, 7, Cosine);
    let gt = ground_truth(&base, &queries, 10, Cosine);
    let mut acc = 0.0;
    for (q, g) in queries.iter().zip(gt.iter()) {
        let recall: F32 = recall_at_k(&idx.search(&q.vec, 10), g);
        acc += recall.0;
    }
    let mean = acc / queries.len() as f32;
    assert!(mean > 0.3, "k-NN graph recall too low: {mean}");
}

#[test]
fn roargraph_matches_or_beats_knn_graph_on_ood() {
    let (base, queries) = gen_dataset(600, 80, 16, F32(0.6), F32(0.6), 11, &Normal);
    let (workload, eval): (Vec<_>, Vec<_>) =
        queries.into_iter().enumerate().partition(|(i, _)| i % 2 == 0);
    let workload: Vec<Entry<F32>> = workload.into_iter().map(|(_, e)| e).collect();
    let eval: Vec<Entry<F32>> = eval.into_iter().map(|(_, e)| e).collect();
    let knn = KnnGraphIndex::build(&base, 12, 32, 8, 7, Cosine);
    let roar = RoarGraphIndex::build(&base, &workload, 12, 6, 6, 32, 8, Cosine);
    let gt = ground_truth(&base, &eval, 10, Cosine);
    let mean = |idx: &dyn AnnIndex<F32>| -> f32 {
        let mut acc = 0.0;
        for (q, g) in eval.iter().zip(gt.iter()) {
            let recall: F32 = recall_at_k(&idx.search(&q.vec, 10), g);
            acc += recall.0;
        }
        acc / eval.len() as f32
    };
    let r_knn = mean(&knn);
    let r_roar = mean(&roar);
    assert!(
        r_roar + 0.02 >= r_knn,
        "RoarGraph regressed vs k-NN: roar={r_roar}, knn={r_knn}"
    );
    assert!(roar.aug_edges() > 0);
}

#[test]
fn roar_errors_show_their_messages() {
    assert_eq!(
        RoarError::EmptyIndex.message(),
        "index is empty — call add() before build/search"
    );
    assert_eq!(
        RoarError::DimensionMismatch { expected: 4, got: 12 }.message(),
        "dimension mismatch: expected 4, got 12"
    );
    assert_eq!(RoarError::NoTrainingQueries.message(), "training query set is empty");
    assert_eq!(
        RoarError::KTooLarge { k: 30, n: 7 }.message(),
        "k=30 exceeds number of indexed vectors n=7"
    );
    assert_eq!(
        RoarError::NotBuilt.message(),
        "graph not built — call build() before search()"
    );
}

#[test]
fn search_reports_each_error() {
    let mut g: RoarGraph<F32, SqL2> = RoarGraph::new(2, SqL2);
    assert!(g.is_empty());
    let wrong = g.add(&[wrap(&[1.0, 2.0]), wrap(&[1.0])]);
    assert_eq!(wrong, Err(RoarError::DimensionMismatch { expected: 2, got: 1 }));
    assert_eq!(g.len(), 1);
    g.add(&[wrap(&[3.0, 4.0]), wrap(&[0.0, 0.0])]).unwrap();
    build_roargraph(&mut g, &[wrap(&[0.0, 1.0])], &BuildParams::default()).unwrap();
    assert_eq!(
        g.search(&wrap(&[1.0]), 1, 4),
        Err(RoarError::DimensionMismatch { expected: 2, got: 1 })
    );
    assert_eq!(g.search(&wrap(&[1.0, 1.0]), 4, 4).unwrap().len(), 3);
    let found = g.search(&wrap(&[0.0, 0.0]), 3, 8).unwrap();
    let ids: Vec<usize> = found.iter().map(|r| r.id).collect();
    assert_eq!(ids, vec![2, 0, 1]);
    assert_eq!(distance(found[1].dist), 5.0);
    assert_eq!(distance(found[2].dist), 25.0);
}

#[test]
fn wide_search_of_a_connected_graph_is_exact() {
    let base = random_vecs(60, 4, 3);
    let queries = random_vecs(20, 4, 4);
    let mut g = RoarGraph::new(4, SqL2);
    g.add(&base).unwrap();
    let params = BuildParams { k_train: 6, max_degree: 8 };
    build_roargraph(&mut g, &queries, &params).unwrap();
    for q in &queries {
        let found = g.search(q, 10, 60).unwrap();
        let want = exact_knn(q, &base, 10);
        assert_eq!(found.len(), 10);
        assert!(found.iter().all(|r| want.contains(&r.id)));
    }
}

#[test]
fn baseline_lists_are_other_nodes_within_the_degree() {
    let base = random_vecs(30, 4, 7);
    let mut idx = BaselineGraph::new(4, 5, SqL2);
    assert!(idx.is_empty());
    idx.add(&base).unwrap();
    assert_eq!(idx.build(&[]), Ok(()));
    assert_eq!(idx.len(), 30);
    for (i, list) in idx.adjacency().iter().enumerate() {
        assert_eq!(list.len(), 5);
        assert!(!list.contains(&(i as u32)));
    }
    let mut empty: BaselineGraph<F32, SqL2> = BaselineGraph::new(4, 5, SqL2);
    assert_eq!(empty.build(&[]), Err(RoarError::EmptyIndex));
}

#[test]
fn reachable_nodes_of_a_small_graph() {
    let adj = vec![vec![1], vec![2, 0], vec![], vec![0]];
    let mut r = bfs_reachable(&adj, 0);
    r.sort();
    assert_eq!(r, vec![0, 1, 2]);
    assert_eq!(bfs_reachable(&adj, 2), vec![2]);
}

#[test]
fn xorshift_gives_exact_draws() {
    let mut a = XorShift::new(1);
    let x: u64 = (1u64 ^ (1 << 13)) ^ ((1u64 ^ (1 << 13)) >> 7);
    let x = x ^ (x << 17);
    assert_eq!(a.next_u64(), x.wrapping_mul(0x2545_F491_4F6C_DD1D));
    let mut zero = XorShift::new(0);
    let mut fixed = XorShift::new(0xdead_beef_cafe_babe);
    for _ in 0..5 {
        assert_eq!(zero.next_u64(), fixed.next_u64());
    }
    assert_eq!(fixed.next_f32() as u64, zero.next_u64() >> 40);
}

#[test]
fn flat_index_orders_by_similarity() {
    let entries = vec![
        Entry { id: 0, vec: wrap(&[1.0, 0.0]) },
        Entry { id: 1, vec: wrap(&[0.0, 1.0]) },
        Entry { id: 2, vec: wrap(&[1.0, 1.0]) },
    ];
    let idx = FlatIndex::build(&entries, Cosine);
    let hits = idx.search(&wrap(&[1.0, 0.1]), 2);
    assert_eq!(hits[0].id, 0);
    assert_eq!(hits[1].id, 2);
    assert!(idx.search(&wrap(&[1.0, 0.1]), 0).is_empty());
    assert_eq!(idx.name(), "FlatIndex");
    assert_eq!(idx.memory_bytes(), 3 * std::mem::size_of::<Entry<F32>>() + 6 * 4);
}

#[test]
fn hit_recall_counts_distinct_true_hits() {
    let hit = |id: u32| Hit { id, score: 0 };
    let r: F32 = recall_at_k(&[hit(1), hit(9)], &[hit(1), hit(2)]);
    assert_eq!(r, F32(0.5));
    let twice: F32 = recall_at_k(&[hit(0), hit(0)], &[hit(0)]);
    assert_eq!(twice, F32(1.0));
    let half: F32 = recall_at_k(&[hit(1), hit(1)], &[hit(1), hit(2), hit(2)]);
    assert_eq!(half, F32(0.5));
    let none: F32 = recall_at_k(&[hit(1)], &[]);
    assert_eq!(none, F32(1.0));
}

#[test]
fn set_recall_counts_a_result_once() {
    let gt: HashSet<usize> = [0, 1].iter().cloned().collect();
    let r: F64 = set_recall(&[0, 0], &gt);
    assert_eq!(r, F64(0.5));
}

#[test]
fn search_starts_nearest_to_the_mean() {
    let base: Vec<Vec<F32>> =
        [0.0f32, 1.0, 100.0, 102.0, 103.0].iter().map(|&x| wrap(&[x])).collect();
    let mut b = BaselineGraph::new(1, 1, SqL2);
    b.add(&base).unwrap();
    b.build(&[]).unwrap();
    let found = b.search(&wrap(&[100.0]), 1, 10).unwrap();
    assert_eq!(found.len(), 1);
    assert_eq!(found[0].id, 2);
    assert_eq!(distance(found[0].dist), 0.0);
    let mut tied = BaselineGraph::new(1, 0, SqL2);
    tied.add(&[wrap(&[3.0]), wrap(&[1.0]), wrap(&[2.0]), wrap(&[2.0])]).unwrap();
    tied.build(&[]).unwrap();
    assert_eq!(tied.search(&wrap(&[3.0]), 4, 4).unwrap()[0].id, 2);
}

#[test]
fn default_parameters_of_the_graph() {
    let p = BuildParams::default();
    assert_eq!((p.k_train, p.max_degree), (20, 32));
    let d: DatasetParams<F32> = DatasetParams::default();
    assert_eq!((d.n_base, d.dim, d.n_clusters, d.seed), (5_000, 64, 8, 42));
    assert_eq!((d.cluster_std, d.cluster_range, d.ood_shift), (F32(0.5), F32(5.0), F32(3.0)));
}

#[test]
fn dataset_takes_its_draws_from_the_standard_generator() {
    let params = DatasetParams {
        n_base: 3,
        dim: 2,
        n_clusters: 2,
        cluster_std: F32(0.5),
        cluster_range: F32(3.0),
        ood_shift: F32(2.0),
        seed: 5,
    };
    let a = generate_ood_dataset(&params, 1, 1, 1, &OpenNormal);
    let b = generate_ood_dataset(&params, 1, 1, 1, &OpenNormal);
    assert_eq!(a.base, b.base);
    let mut rng = StdRng::seed_from_u64(5);
    let centres: Vec<Vec<f32>> = (0..2)
        .map(|_| (0..2).map(|_| rng.gen_range(-3.0f32..3.0)).collect())
        .collect();
    let close = |x: F32, y: f32| (x.0 - y).abs() < 5.0;
    for (i, row) in a.base.iter().enumerate() {
        for (x, c) in row.iter().zip(&centres[i % 2]) {
            assert!(close(*x, *c), "{x:?} is too far from {c}");
        }
    }
}

#[test]
fn gauss_takes_its_draws_from_chacha() {
    let rows = gen_gauss(2, 3, F32(1.5), 11, &Normal);
    let mut rng = ChaCha8Rng::seed_from_u64(11);
    for row in &rows {
        for x in row {
            let u1: f32 = rng.gen::<f32>();
            let u2: f32 = rng.gen::<f32>();
            let u1 = (u1 * (1u32 << 24) as f32) as u32;
            let u2 = (u2 * (1u32 << 24) as f32) as u32;
            let want = Normal.normal(u1, u2).0 + 1.5;
            assert_eq!(x.0, want);
        }
    }
}

#[test]
fn share_of_the_first_results() {
    let got = vec![(4, F32(0.0)), (1, F32(0.5)), (2, F32(0.7))];
    let r: F32 = share_at_k(&got, &[1, 9, 4], 2);
    assert_eq!(r, F32(0.5));
}

#[test]
fn plain_squared_distance_of_the_graph() {
    assert_eq!(l2sq(&wrap(&[0.0, 3.0]), &wrap(&[4.0, 0.0])), F32(25.0));
}

#[test]
fn workload_lists_join_their_entries() {
    let (base, queries) = gen_dataset(12, 3, 4, F32(0.4), F32(0.4), 5, &Normal);
    let n = base.len();
    // Every entry shares a list with every other one, and there is room for all.
    let full = RoarGraphIndex::build(&base, &queries, 2, n, n, n, 3, Cosine);
    let nearest = KnnGraphIndex::build(&base, 2, n, 3, 7, Cosine);
    let words = base.iter().map(|e| e.vec.len()).sum::<usize>();
    assert_eq!(full.memory_bytes(), 4 * (words + n * (n - 1) + 3));
    assert_eq!(full.aug_edges(), n * (n - 1) - 2 * n);
    assert_eq!(nearest.memory_bytes(), 4 * (words + 2 * n + 3));
    // With room for one more neighbour, every list becomes full.
    let capped = RoarGraphIndex::build(&base, &queries, 2, n, 1, n, 3, Cosine);
    assert_eq!(capped.memory_bytes(), 4 * (words + 3 * n + 3));
    assert_eq!(capped.aug_edges(), n);
    // Lists of one entry join nothing.
    let alone = RoarGraphIndex::build(&base, &queries, 2, 0, n, n, 3, Cosine);
    assert_eq!(alone.aug_edges(), 0);
}

#[test]
fn wide_walk_of_a_complete_graph_scores_as_the_scan() {
    let (base, queries) = gen_dataset(40, 10, 6, F32(0.4), F32(0.4), 9, &Normal);
    let graph = KnnGraphIndex::build(&base, 39, 40, 1, 3, Cosine);
    let flat = FlatIndex::build(&base, Cosine);
    for q in &queries {
        for k in [1, 7, 40, 50] {
            let got: Vec<u64> = graph.search(&q.vec, k).iter().map(|h| h.score).collect();
            let want: Vec<u64> = flat.search(&q.vec, k).iter().map(|h| h.score).collect();
            assert_eq!(got, want);
        }
    }
}

#[test]
fn greedy_walk_returns_a_hit() {
    let (base, queries) = tiny();
    let idx = KnnGraphIndex::build(&base, 2, 1, 1, 3, Cosine);
    for q in &queries {
        assert_eq!(idx.search(&q.vec, 1).len(), 1);
        assert_eq!(idx.search(&q.vec, 5).len(), 1);
    }
}

#[test]
fn joining_makes_no_node_its_own_neighbour() {
    let base = random_vecs(60, 8, 12);
    let queries = random_vecs(4, 8, 13);
    let mut g = RoarGraph::new(8, SqL2);
    g.add(&base).unwrap();
    build_roargraph(&mut g, &queries, &BuildParams { k_train: 3, max_degree: 2 }).unwrap();
    for (i, list) in g.adjacency().iter().enumerate() {
        assert!(!list.contains(&(i as u32)));
        assert!(!list.is_empty());
    }
}
