//! A centroid: one weighted cluster summary. Merging two centroids forms
//! their weight-weighted average without ever touching the raw samples.

use vstd::prelude::*;

use crate::model::MAX_TOTAL_WEIGHT;

verus! {

/// A cluster summary: `mean` is the weighted average of the samples the
/// cluster stands for (in the caller's fixed-point unit), `weight` counts
/// those samples.
#[derive(Clone, Copy, PartialEq, Eq, Structural, Debug)]
pub struct Centroid {
    pub mean: i64,
    pub weight: u64,
}

/// The centroid that results from absorbing `b` into `a`, for `a.mean <=
/// b.mean`: the weight-weighted average of the two means (computed from the
/// means themselves, never from raw sample sums), rounded down, and the sum
/// of the weights. `a.mean + (b.weight * (b.mean - a.mean)) / (a.weight +
/// b.weight)` equals `(a.weight * a.mean + b.weight * b.mean) / (a.weight +
/// b.weight)` exactly, but keeps every intermediate value nonnegative.
pub open spec fn merged_centroid(a: Centroid, b: Centroid) -> Centroid
    recommends
        a.mean <= b.mean,
        a.weight + b.weight >= 1,
{
    Centroid {
        mean: (a.mean + b.weight * (b.mean - a.mean) / (a.weight + b.weight)) as i64,
        weight: (a.weight + b.weight) as u64,
    }
}

/// The merged mean lies between the two source means, so merging adjacent
/// centroids of a sorted sequence keeps the sequence sorted.
pub proof fn lemma_merged_centroid_bounds(a: Centroid, b: Centroid)
    requires
        a.mean <= b.mean,
        a.weight >= 1 || b.weight >= 1,
        a.weight + b.weight <= u64::MAX,
    ensures
        merged_centroid(a, b).weight == a.weight + b.weight,
        merged_centroid(a, b).mean == a.mean + b.weight * (b.mean - a.mean) / (a.weight
            + b.weight),
        a.mean <= merged_centroid(a, b).mean <= b.mean,
{
    let w = a.weight + b.weight;
    let d = b.mean - a.mean;
    assert(0 <= b.weight * d <= w * d) by (nonlinear_arith)
        requires
            d >= 0,
            0 <= b.weight <= w,
    ;
    assert(0 <= b.weight * d / w) by {
        vstd::arithmetic::div_mod::lemma_div_is_ordered(0, b.weight * d, w);
    }
    assert(b.weight * d / w <= d) by {
        vstd::arithmetic::div_mod::lemma_div_is_ordered(b.weight * d, w * d, w);
        vstd::arithmetic::div_mod::lemma_div_multiples_vanish(d, w);
        assert(w * d / w == d);
    }
    assert(a.mean <= a.mean + b.weight * d / w <= b.mean);
}

impl Centroid {
    /// Absorb `other` into `self`, per the merged-centroid rule.
    pub fn merge(&mut self, other: &Centroid)
        requires
            old(self).mean <= other.mean,
            old(self).weight >= 1,
            other.weight >= 1,
            old(self).weight + other.weight <= MAX_TOTAL_WEIGHT,
        ensures
            *final(self) == merged_centroid(*old(self), *other),
            old(self).mean <= final(self).mean <= other.mean,
            final(self).weight == old(self).weight + other.weight,
    {
        proof {
            lemma_merged_centroid_bounds(*old(self), *other);
            vstd::arithmetic::mul::lemma_mul_upper_bound(
                other.weight as int,
                MAX_TOTAL_WEIGHT as int,
                other.mean - self.mean,
                u64::MAX as int,
            );
        }
        let sum_weights: u64 = self.weight + other.weight;
        let diff: u128 = (other.mean as i128 - self.mean as i128) as u128;
        assert(diff == other.mean - self.mean);
        let adjust: u128 = (other.weight as u128 * diff) / (sum_weights as u128);
        assert(adjust == other.weight * (other.mean - old(self).mean) / (old(self).weight
            + other.weight));
        assert(adjust <= diff);
        let mean: i64 = (self.mean as i128 + adjust as i128) as i64;
        self.mean = mean;
        self.weight = sum_weights;
    }
}

} // verus!
