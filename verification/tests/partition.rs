//! Tests for the work partitioner, the integer square root, the variant
//! selector, and the two-slot buffer.

use nbabel::buffer::TwoSlot;
use nbabel::partition::{isqrt, make_splits};
use nbabel::{run, Algorithm};

/// Checks the cover shape of `make_splits(n, k)` and that the per-range
/// pair counts sum to exactly n * (n - 1) / 2.
fn check_cover(n: usize, k: usize) {
    let splits = make_splits(n, k);
    assert_eq!(splits.len(), k);
    assert_eq!(splits[0].0, 0);
    assert_eq!(splits[k - 1].1, n);
    for i in 0..k {
        assert!(splits[i].0 <= splits[i].1);
        if i > 0 {
            assert_eq!(splits[i].0, splits[i - 1].1);
        }
    }
    let mut pairs: u128 = 0;
    let mut max_range_pairs: u128 = 0;
    for &(lo, hi) in &splits {
        let mut range_pairs: u128 = 0;
        for i in lo..hi {
            range_pairs += (n - i - 1) as u128;
        }
        pairs += range_pairs;
        max_range_pairs = max_range_pairs.max(range_pairs);
    }
    assert_eq!(pairs, (n as u128) * (n as u128 - 1) / 2, "n={} k={}", n, k);
    // Balance: no range owns more than the even share plus a rounding term.
    let (n, k) = (n as u128, k as u128);
    assert!(2 * k * max_range_pairs <= n * n + 2 * n * k + k, "n={} k={}", n, k);
}

#[test]
fn cover_small() {
    check_cover(1, 1);
    check_cover(2, 1);
    check_cover(2, 3);
    check_cover(3, 2);
    check_cover(5, 8);
}

#[test]
fn cover_medium() {
    check_cover(10, 4);
    check_cover(128, 4);
    check_cover(127, 3);
    check_cover(1000, 7);
    check_cover(4096, 16);
}

#[test]
fn cover_no_particles() {
    let splits = make_splits(0, 3);
    assert_eq!(splits, vec![(0, 0), (0, 0), (0, 0)]);
}

#[test]
fn cover_one_worker_is_whole_range() {
    let splits = make_splits(77, 1);
    assert_eq!(splits, vec![(0, 77)]);
}

/// The boundary formula `ceil(n * (1 - sqrt(i / k)))` from the balanced
/// triangular split, evaluated at a few known points.
#[test]
fn known_boundaries() {
    assert_eq!(make_splits(10, 4), vec![(0, 2), (2, 3), (3, 5), (5, 10)]);
    assert_eq!(make_splits(128, 4), vec![(0, 18), (18, 38), (38, 64), (64, 128)]);
}

/// The exact integer boundaries agree with a floating-point evaluation
/// of the same formula on inputs where the rounding is not borderline.
#[test]
fn boundaries_match_float_formula() {
    for &(n, k) in &[(10usize, 4usize), (16, 2), (128, 4), (128, 8), (1000, 7), (4096, 16)] {
        let expected: Vec<usize> = std::iter::once(0)
            .chain((0..k).rev().map(|i| {
                f64::ceil((n as f64) * (1.0 - f64::sqrt((i as f64) / (k as f64)))) as usize
            }))
            .collect();
        let splits = make_splits(n, k);
        for j in 0..k {
            assert_eq!(splits[j].0, expected[j], "n={} k={} j={}", n, k, j);
            assert_eq!(splits[j].1, expected[j + 1], "n={} k={} j={}", n, k, j);
        }
    }
}

#[test]
fn isqrt_small_values() {
    let expected: [u128; 11] = [0, 1, 1, 1, 2, 2, 2, 2, 2, 3, 3];
    for x in 0..11u128 {
        assert_eq!(isqrt(x), expected[x as usize], "x={}", x);
    }
    assert_eq!(isqrt(15), 3);
    assert_eq!(isqrt(16), 4);
    assert_eq!(isqrt(17), 4);
}

#[test]
fn isqrt_large_values() {
    let m = u64::MAX as u128;
    assert_eq!(isqrt(u128::MAX), m);
    assert_eq!(isqrt(m * m), m);
    assert_eq!(isqrt(m * m - 1), m - 1);
    assert_eq!(isqrt(1u128 << 64), 1u128 << 32);
    assert_eq!(isqrt((1u128 << 64) - 1), (1u128 << 32) - 1);
}

#[test]
fn selector_names_each_variant() {
    assert_eq!(run(0), Algorithm::Scalar);
    assert_eq!(run(1), Algorithm::Simd);
    assert_eq!(run(2), Algorithm::ParallelSimd);
}

#[test]
fn two_slot_rotation() {
    let mut slots: TwoSlot<f64> = TwoSlot::new(1.5, 0.25);
    slots.rotate(-3.0);
    assert_eq!(slots.cur, -3.0);
    assert_eq!(slots.prev, 1.5);
    slots.rotate(7.0);
    assert_eq!(slots.cur, 7.0);
    assert_eq!(slots.prev, -3.0);
}
