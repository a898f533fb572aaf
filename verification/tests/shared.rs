//! What the indexes share.

use ruvector::bytes::{bytes_for, bytes_for_all};
use ruvector::heap::MinHeap;
use ruvector::idlist::{count_of, keep_distinct_ids, sort_dedup};
use ruvector::noise::{FineNoise, Noise, Triangular};
use ruvector::order;
use ruvector::overlap::{count_hits, keep_distinct};
use ruvector::report::{mean, median, percentile, rank_at};
use ruvector::scalar::{square_root, Fixed, Scalar};
use ruvector::serf::flat::Flat as RangeFlat;
use ruvector::segment_rangehnsw::segment::index_bytes_for;
use ruvector::serf::range::{Range, RangeSearch};
use ruvector::sorting::{select_top_k, sort_by_key};


#[test]
fn order_keys_follow_the_values() {
    let values = [f32::NEG_INFINITY, -2.5, -1e-30, 0.0, 1e-30, 1.0, f32::INFINITY];
    let keys: Vec<u64> = values.iter().map(|x| order::key(x.to_bits()).unwrap()).collect();
    for w in keys.windows(2) {
        assert!(w[0] < w[1]);
    }
    for (x, k) in values.iter().zip(&keys) {
        assert_eq!(f32::from_bits(order::bits_of_key(*k)), *x);
    }
    assert_eq!(order::key((-0.0f32).to_bits()), order::key(0.0f32.to_bits()));
    assert_eq!(order::key(0.0f32.to_bits()), Some(order::ZERO_KEY));
    assert_eq!(order::key(f32::INFINITY.to_bits()), Some(order::INFINITY_KEY));
    assert_eq!(order::key(f32::NAN.to_bits()), None);
}

#[test]
fn total_keys_tell_the_zeros_apart() {
    let minus = order::total_key((-0.0f32).to_bits());
    let plus = order::total_key(0.0f32.to_bits());
    assert!(minus < plus);
    assert_eq!(order::bits_of_total_key(minus), (-0.0f32).to_bits());
    assert_eq!(order::bits_of_total_key(plus), 0.0f32.to_bits());
}

fn fixed(x: f64) -> Fixed {
    Fixed { raw: (x * 65536.0) as i64 }
}

#[test]
fn fixed_point_arithmetic() {
    assert_eq!(Fixed::ratio(3, 2), fixed(1.5));
    assert_eq!(fixed(1.5).plus(fixed(2.25)), fixed(3.75));
    assert_eq!(fixed(1.5).minus(fixed(2.25)), fixed(-0.75));
    assert_eq!(fixed(1.5).times(fixed(-2.5)), fixed(-3.75));
    assert_eq!(fixed(-3.0).over(fixed(2.0)), fixed(-1.5));
    assert_eq!(fixed(3.0).over(fixed(0.0)), fixed(0.0));
    assert_eq!(fixed(2.25).sqrt(), fixed(1.5));
    assert_eq!(fixed(-4.0).sqrt(), fixed(0.0));
    assert_eq!(fixed(2.5).nearest(), 3);
    assert_eq!(fixed(-2.5).nearest(), -3);
    assert_eq!(fixed(2.4).nearest(), 2);
    assert_eq!(fixed(300.0).byte(), 255);
    assert_eq!(fixed(-1.0).byte(), 0);
    assert_eq!(fixed(7.6).byte(), 8);
    assert!(fixed(-1.0).key() < fixed(0.5).key());
    assert_eq!(square_root(99), 9);
}

#[test]
fn fixed_point_searches() {
    let rows = vec![vec![fixed(0.0)], vec![fixed(5.0)], vec![fixed(2.0)]];
    let flat = RangeFlat::new(rows, vec![fixed(0.0), fixed(1.0), fixed(2.0)]);
    let range = Range { lo: fixed(1.0), hi: fixed(2.0) };
    let found = flat.search(&[fixed(4.0)], range, 5);
    assert_eq!(found, vec![(1, fixed(1.0)), (2, fixed(4.0))]);
}

#[test]
fn triangular_noise_is_bounded() {
    let top = (1u32 << 24) - 1;
    assert_eq!(Noise::normal(&Triangular, 0, 0), fixed(-1.0));
    assert_eq!(Noise::normal(&Triangular, 1 << 23, 1 << 23), fixed(0.0));
    assert!(Noise::normal(&Triangular, top, top).raw < 0x1_0000);
    let fine = (1u64 << 53) - 1;
    assert_eq!(FineNoise::fine_normal(&Triangular, 0, 0), fixed(-1.0));
    assert!(FineNoise::fine_normal(&Triangular, fine, fine).raw < 0x1_0000);
}

#[test]
fn heap_hands_out_the_least() {
    let mut heap = MinHeap::new();
    for x in [(5u64, 1usize), (2, 9), (2, 3), (8, 0)] {
        heap.push(x);
    }
    assert_eq!(heap.len(), 4);
    assert_eq!(heap.peek(), Some((2, 3)));
    assert_eq!(heap.pop(), Some((2, 3)));
    assert_eq!(heap.into_sorted(), vec![(2, 9), (5, 1), (8, 0)]);
    let mut empty = MinHeap::new();
    assert_eq!(empty.pop(), None);
}

#[test]
fn sorting_keeps_the_order_of_equal_keys() {
    let items = vec![(3u64, 'a'), (1, 'b'), (3, 'c'), (0, 'd')];
    assert_eq!(sort_by_key(&items), vec![(0, 'd'), (1, 'b'), (3, 'a'), (3, 'c')]);
    assert_eq!(select_top_k(&items, 3), vec![(0, 'd'), (1, 'b'), (3, 'a')]);
    assert_eq!(select_top_k(&items, 9).len(), 4);
}

#[test]
fn median_and_percentiles() {
    assert_eq!(median(vec![9]), 9);
    assert_eq!(median(vec![4, 1, 3, 2]), 3);
    let v: Vec<u128> = (1..=11).rev().collect();
    assert_eq!(percentile(v.clone(), 0), 1);
    assert_eq!(percentile(v.clone(), 50), 6);
    assert_eq!(percentile(v.clone(), 95), 11);
    assert_eq!(percentile(v.clone(), 94), 10);
    assert_eq!(percentile(v.clone(), 100), 11);
    assert_eq!(percentile(v, 250), 11);
    assert_eq!(percentile(vec![], 50), 0);
    assert_eq!(rank_at(4, 50), 2);
    assert_eq!(mean(&[fixed(1.0), fixed(2.0), fixed(6.0)]), fixed(3.0));
}

#[test]
fn lists_of_numbers() {
    assert_eq!(sort_dedup(&[5, 1, 5, 3]), vec![1, 3, 5]);
    assert_eq!(keep_distinct_ids(&[5, 1, 5, 3]), vec![5, 1, 3]);
    assert_eq!(count_of(&[5, 1, 5, 3], 5), 2);
    assert_eq!(keep_distinct(&[2, 2, 1]), vec![2, 1]);
    assert_eq!(count_hits(&[1, 1, 4], &[1, 2]), 2);
}

#[test]
fn bytes_for_given_rooms() {
    assert_eq!(bytes_for(&[], 24), 0);
    assert_eq!(bytes_for(&[3, 0, 5], 24), 4 * 8 + 3 * 24);
    assert_eq!(bytes_for(&[3, 0, 5], 0), 32);
    assert_eq!(bytes_for(&[usize::MAX / 2, 1], 8), usize::MAX);
    assert_eq!(bytes_for_all(&[vec![3, 0, 5], vec![], vec![1]], 24), 32 + 72 + 4 + 24);
    assert_eq!(bytes_for_all(&[vec![usize::MAX], vec![1]], 0), usize::MAX);
    assert_eq!(index_bytes_for(&[vec![2, 4], vec![]], &[3, 3]), 4 * 6 + 4 * 6 + 2 * 8);
    assert_eq!(index_bytes_for(&[], &[]), 0);
}
