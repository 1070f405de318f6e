//! Construction, ingestion and bookkeeping of the digest.

use top_kat::{Centroid, MergeError, TDigest};

fn centroids_of(d: &TDigest) -> Vec<Centroid> {
    let mut out = Vec::new();
    let mut i = 0;
    while i < d.num_centroids() {
        out.push(d.centroid_at(i));
        i += 1;
    }
    out
}

#[test]
fn new_digest_is_empty() {
    let d = TDigest::new_empty(100);
    assert_eq!(d.num_centroids(), 0);
    assert_eq!(d.sample_count(), 0);
    assert_eq!(d.delta(), 100);
}

#[test]
fn weight_conservation_single_batch() {
    let mut d = TDigest::new_empty(50);
    d.merge_vec_unsorted(vec![5, 1, 9, 3, 7]);
    assert_eq!(d.sample_count(), 5);
}

#[test]
fn weight_conservation_across_merges() {
    let mut d = TDigest::new_empty(20);
    let mut expected: u64 = 0;
    for round in 0..10 {
        let batch: Vec<i64> = (0..100).map(|i| (i * 37 + round * 11) % 500).collect();
        expected += batch.len() as u64;
        d.merge_vec_unsorted(batch);
        assert_eq!(d.sample_count(), expected);
    }
    let sum: u64 = centroids_of(&d).iter().map(|c| c.weight).sum();
    assert_eq!(sum, expected);
}

#[test]
fn weight_conservation_sorted_path() {
    let mut d = TDigest::new_empty(30);
    d.merge_vec_sorted((1..=200).collect::<Vec<i64>>()).unwrap();
    d.merge_vec_sorted((100..=300).collect::<Vec<i64>>()).unwrap();
    assert_eq!(d.sample_count(), 200 + 201);
}

#[test]
fn centroid_bound_holds() {
    let mut d = TDigest::new_empty(10);
    d.merge_vec_unsorted((0..1000).map(|i| (i * 7919) % 10007).collect());
    assert!(d.num_centroids() <= 10);
    assert_eq!(d.sample_count(), 1000);
}

#[test]
fn centroid_bound_delta_one() {
    let mut d = TDigest::new_empty(1);
    d.merge_vec_unsorted((1..=100).collect::<Vec<i64>>());
    assert_eq!(d.num_centroids(), 1);
    let c = d.centroid_at(0);
    assert_eq!(c.weight, 100);
    // The lone centroid's mean is the running weighted average of all
    // samples, accumulated pair by pair with floor rounding.
    assert!(c.mean >= 1 && c.mean <= 100);
}

#[test]
fn centroid_bound_survives_repeated_merges() {
    let mut d = TDigest::new_empty(8);
    for round in 0..50 {
        d.merge_vec_unsorted((0..40).map(|i| i * 13 + round).collect());
        assert!(d.num_centroids() <= 8);
    }
    assert_eq!(d.sample_count(), 50 * 40);
}

#[test]
fn centroids_stay_sorted_with_positive_weights() {
    let mut d = TDigest::new_empty(16);
    d.merge_vec_unsorted((0..500).map(|i| (i * 31) % 97 - 48).collect());
    let cs = centroids_of(&d);
    for pair in cs.windows(2) {
        assert!(pair[0].mean <= pair[1].mean);
    }
    for c in &cs {
        assert!(c.weight >= 1);
    }
}

#[test]
fn merge_equivalence_unsorted_vs_sorted() {
    let mut unsorted = TDigest::new_empty(100);
    unsorted.merge_vec_unsorted(vec![1, 5, 3, 2, 4]);
    let mut sorted = TDigest::new_empty(100);
    sorted.merge_vec_sorted(vec![1, 2, 3, 4, 5]).unwrap();
    assert_eq!(centroids_of(&unsorted), centroids_of(&sorted));
}

#[test]
fn merge_equivalence_with_existing_store() {
    let mut a = TDigest::new_empty(7);
    let mut b = TDigest::new_empty(7);
    a.merge_vec_unsorted(vec![10, 30, 20]);
    b.merge_vec_unsorted(vec![10, 30, 20]);
    a.merge_vec_unsorted(vec![25, 5, 15, 35, 5]);
    b.merge_vec_sorted(vec![5, 5, 15, 25, 35]).unwrap();
    assert_eq!(centroids_of(&a), centroids_of(&b));
}

#[test]
fn unsorted_batch_rejected_on_sorted_path() {
    let mut d = TDigest::new_empty(100);
    d.merge_vec_unsorted(vec![1, 2, 3]);
    let before = centroids_of(&d);
    let r = d.merge_vec_sorted(vec![3, 1, 2]);
    assert_eq!(r, Err(MergeError::UnsortedBatch));
    // A rejected batch leaves the digest untouched.
    assert_eq!(centroids_of(&d), before);
    assert_eq!(d.sample_count(), 3);
}

#[test]
fn sorted_path_accepts_ties_and_empty() {
    let mut d = TDigest::new_empty(100);
    assert_eq!(d.merge_vec_sorted(vec![]), Ok(()));
    assert_eq!(d.merge_vec_sorted(vec![4, 4, 4]), Ok(()));
    assert_eq!(d.sample_count(), 3);
}

#[test]
fn merging_empty_batch_changes_nothing() {
    let mut d = TDigest::new_empty(100);
    d.merge_vec_unsorted(vec![8, 6, 7]);
    let before = centroids_of(&d);
    d.merge_vec_unsorted(vec![]);
    assert_eq!(centroids_of(&d), before);
    assert_eq!(d.sample_count(), 3);
}

#[test]
fn equal_samples_collapse() {
    let mut d = TDigest::new_empty(100);
    d.merge_vec_unsorted(vec![7; 50]);
    assert_eq!(d.sample_count(), 50);
    for c in centroids_of(&d) {
        assert_eq!(c.mean, 7);
    }
}

#[test]
fn extreme_sample_values() {
    let mut d = TDigest::new_empty(100);
    d.merge_vec_unsorted(vec![i64::MAX, 0, i64::MIN]);
    assert_eq!(d.sample_count(), 3);
    assert_eq!(d.estimate_value(0), i64::MIN);
    assert_eq!(d.estimate_value(1_000_000), i64::MAX);
    let mid = d.estimate_value(500_000);
    assert!(i64::MIN <= mid && mid <= i64::MAX);
}
