//! Quantile and inverse-quantile queries: boundaries, monotonicity, the
//! round trip, and the concrete accuracy scenario.

use top_kat::{TDigest, QUANTILE_SCALE};

#[test]
fn empty_digest_returns_sentinels() {
    let d = TDigest::new_empty(100);
    assert_eq!(d.estimate_quantile(42), 0);
    assert_eq!(d.estimate_quantile(i64::MIN), 0);
    assert_eq!(d.estimate_value(0), 0);
    assert_eq!(d.estimate_value(500_000), 0);
    assert_eq!(d.estimate_value(QUANTILE_SCALE), 0);
}

#[test]
fn single_value_digest() {
    let mut d = TDigest::new_empty(100);
    d.merge_vec_unsorted(vec![42]);
    assert_eq!(d.estimate_quantile(41), 0);
    assert_eq!(d.estimate_quantile(42), 0);
    assert_eq!(d.estimate_quantile(43), QUANTILE_SCALE);
    assert_eq!(d.estimate_value(0), 42);
    assert_eq!(d.estimate_value(500_000), 42);
    assert_eq!(d.estimate_value(QUANTILE_SCALE), 42);
}

#[test]
fn boundary_exactness() {
    let mut d = TDigest::new_empty(100);
    d.merge_vec_unsorted((1..=500).collect::<Vec<i64>>());
    let min_mean = d.centroid_at(0).mean;
    let max_mean = d.centroid_at(d.num_centroids() - 1).mean;
    // The least observed mean sits at quantile exactly 0; the inverse
    // query is exact at both ends.
    assert_eq!(d.estimate_quantile(min_mean), 0);
    assert_eq!(d.estimate_value(0), min_mean);
    assert_eq!(d.estimate_value(QUANTILE_SCALE), max_mean);
    assert_eq!(d.estimate_value(2_000_000), max_mean);
    // The greatest observed mean sits within half its centroid's weight
    // of quantile 1.
    assert!(d.estimate_quantile(max_mean) > 900_000);
    assert_eq!(d.estimate_quantile(max_mean + 1), QUANTILE_SCALE);
}

#[test]
fn quantile_is_monotonic() {
    let mut d = TDigest::new_empty(25);
    d.merge_vec_unsorted((0..400).map(|i| (i * 17) % 1000).collect());
    let mut prev = 0u64;
    let mut v: i64 = -50;
    while v <= 1050 {
        let q = d.estimate_quantile(v);
        assert!(q >= prev, "quantile decreased at v = {}: {} < {}", v, q, prev);
        assert!(q <= QUANTILE_SCALE);
        prev = q;
        v += 7;
    }
}

#[test]
fn quantile_monotonic_with_negative_values() {
    let mut d = TDigest::new_empty(40);
    d.merge_vec_unsorted((-100..=100).collect::<Vec<i64>>());
    let mut prev = 0u64;
    for v in -110..=110 {
        let q = d.estimate_quantile(v);
        assert!(q >= prev);
        prev = q;
    }
    // Zero sits in the middle of a symmetric sample.
    let mid = d.estimate_quantile(0) as i64;
    assert!((mid - 500_000).abs() <= 50_000);
}

#[test]
fn round_trip_quantile_of_value() {
    let mut d = TDigest::new_empty(100);
    d.merge_vec_unsorted((1..=1000).collect::<Vec<i64>>());
    for &q in &[100_000u64, 250_000, 400_000, 500_000, 600_000, 750_000, 900_000] {
        let v = d.estimate_value(q);
        let q2 = d.estimate_quantile(v);
        let diff = (q2 as i64 - q as i64).abs();
        assert!(diff <= 50_000, "round trip drifted at q = {}: got {}", q, q2);
    }
}

#[test]
fn concrete_accuracy_scenario() {
    // delta equivalent to a compression parameter of 0.01: at most 100
    // centroids.
    let mut d = TDigest::new_empty(100);
    d.merge_vec_unsorted((1..=100).map(|i| i * 10).collect());
    assert_eq!(d.sample_count(), 100);
    // The median estimate lands within 5% of 500.
    let v = d.estimate_value(500_000);
    assert!((v - 500).abs() <= 25, "estimate_value(0.5) = {}", v);
    // The quantile of 500 lands within 0.05 of 0.5.
    let q = d.estimate_quantile(500) as i64;
    assert!((q - 500_000).abs() <= 50_000, "estimate_quantile(500) = {}", q);
}

#[test]
fn tail_quantiles_are_accurate() {
    let mut d = TDigest::new_empty(100);
    d.merge_vec_unsorted((1..=10_000).collect::<Vec<i64>>());
    let p99 = d.estimate_value(990_000);
    assert!((p99 - 9_900).abs() <= 100, "p99 = {}", p99);
    let p01 = d.estimate_value(10_000);
    assert!((p01 - 100).abs() <= 100, "p01 = {}", p01);
}

#[test]
fn value_estimates_stay_in_observed_range() {
    let mut d = TDigest::new_empty(5);
    d.merge_vec_unsorted((0..300).map(|i| (i * 73) % 1000 - 500).collect());
    let lo = d.centroid_at(0).mean;
    let hi = d.centroid_at(d.num_centroids() - 1).mean;
    let mut q = 0u64;
    while q <= QUANTILE_SCALE {
        let v = d.estimate_value(q);
        assert!(lo <= v && v <= hi);
        q += 50_000;
    }
}

#[test]
fn interpolation_clamps_to_left_neighbor() {
    // Three singleton centroids at 0, 1, 1000. A rank just inside the
    // middle centroid's window pulls the estimate far below its left
    // neighbor because of the wide span; the clamp stops it there.
    let mut d = TDigest::new_empty(100);
    d.merge_vec_sorted(vec![0, 1, 1000]).unwrap();
    assert_eq!(d.num_centroids(), 3);
    assert_eq!(d.estimate_value(333_334), 0);
}

#[test]
fn interpolation_clamps_to_right_neighbor() {
    let mut d = TDigest::new_empty(100);
    d.merge_vec_sorted(vec![0, 999, 1000]).unwrap();
    assert_eq!(d.num_centroids(), 3);
    assert_eq!(d.estimate_value(666_666), 1000);
}

#[test]
fn quantile_formula_exact_small_case() {
    // Two unit centroids at 10 and 20, total weight 2. Between them the
    // estimate interpolates the midpoints 1/4 and 3/4 linearly, floored:
    // at v = 15 it is exactly 1/2.
    let mut d = TDigest::new_empty(100);
    d.merge_vec_sorted(vec![10, 20]).unwrap();
    assert_eq!(d.num_centroids(), 2);
    // An exact match on the least mean resolves to position 0.
    assert_eq!(d.estimate_quantile(10), 0);
    assert_eq!(d.estimate_quantile(15), 500_000);
    assert_eq!(d.estimate_quantile(20), 750_000);
    assert_eq!(d.estimate_quantile(12), 350_000);
    assert_eq!(d.estimate_quantile(21), QUANTILE_SCALE);
    assert_eq!(d.estimate_quantile(9), 0);
}

#[test]
fn value_formula_exact_small_case() {
    // Two unit centroids at 10 and 20. At q = 1/2 the rank is 1: the
    // scan lands on the second centroid with half its weight consumed
    // below, so the estimate is its mean pulled half a span down.
    let mut d = TDigest::new_empty(100);
    d.merge_vec_sorted(vec![10, 20]).unwrap();
    assert_eq!(d.estimate_value(0), 10);
    assert_eq!(d.estimate_value(QUANTILE_SCALE), 20);
    assert_eq!(d.estimate_value(500_000), 15);
    // q = 1/4 targets the first centroid's midpoint exactly.
    assert_eq!(d.estimate_value(250_000), 10);
}
