//! The digest itself: an ordered store of weighted centroids plus the
//! compression parameter, with the two ingestion paths.

use vstd::prelude::*;

use crate::centroid::Centroid;
use crate::cluster::{cluster_centroids, cluster_spec, lemma_cluster_spec_props};
use crate::merge::{
    lemma_merge_by_mean_props, lemma_unit_centroids_props, merge_by_mean, merge_sorted_centroids,
    unit_centroids, vals_to_centroids,
};
use crate::model::{
    lemma_prefix_weight_full, lemma_prefix_weight_monotonic, lemma_prefix_weight_step,
    prefix_weight, sorted_by_mean, total_weight, weights_positive, MAX_TOTAL_WEIGHT,
};
use crate::sort::{
    lemma_adjacent_implies_sorted, lemma_sorted_values_of_ensures, lemma_sorted_values_unique,
    sort_values, sorted_values, sorted_values_of,
};

verus! {

/// Why a merge was rejected.
#[derive(Clone, Copy, PartialEq, Eq, Structural, Debug)]
pub enum MergeError {
    /// The pre-sorted ingestion path was handed a batch that is not
    /// ascending; admitting it would corrupt the order invariant.
    UnsortedBatch,
}

/// The digest sequence that a batch merge leaves behind: the batch becomes
/// unit-weight centroids, joins the store in mean order, and the result is
/// re-clustered.
pub open spec fn merged_digest(
    store: Seq<Centroid>,
    batch: Seq<i64>,
    delta: int,
) -> Seq<Centroid> {
    cluster_spec(merge_by_mean(store, unit_centroids(batch)), delta)
}

/// A fixed-memory quantile estimator: an ordered sequence of weighted
/// centroids summarizing every sample merged so far, compressed so that at
/// most `delta` centroids remain after each merge.
pub struct TDigest {
    centroids: Vec<Centroid>,
    delta: u32,
}

impl View for TDigest {
    type V = Seq<Centroid>;

    closed spec fn view(&self) -> Seq<Centroid> {
        self.centroids@
    }
}

impl TDigest {
    /// The compression parameter fixed at construction.
    pub closed spec fn compression(&self) -> int {
        self.delta as int
    }

    /// The digest invariant: centroids ascend by mean, each stands for at
    /// least one sample, the total sample count stays within the bound
    /// that keeps the interpolation arithmetic exact, and the compression
    /// parameter is positive.
    pub open spec fn wf(&self) -> bool {
        &&& sorted_by_mean(self@)
        &&& weights_positive(self@)
        &&& total_weight(self@) <= MAX_TOTAL_WEIGHT
        &&& 1 <= self.compression()
    }

    /// Creates an empty digest with the given compression parameter: the
    /// centroid count after any merge stays at or below `delta`.
    pub fn new_empty(delta: u32) -> (d: TDigest)
        requires
            delta >= 1,
        ensures
            d.wf(),
            d@ == Seq::<Centroid>::empty(),
            d.compression() == delta,
    {
        let d = TDigest { centroids: Vec::new(), delta };
        proof {
            assert(d@ =~= Seq::<Centroid>::empty());
        }
        d
    }

    /// How many centroids the digest currently holds.
    pub fn num_centroids(&self) -> (n: usize)
        ensures
            n == self@.len(),
    {
        self.centroids.len()
    }

    /// The centroid at position `i` of the ordered store.
    pub fn centroid_at(&self, i: usize) -> (c: Centroid)
        requires
            i < self@.len(),
        ensures
            c == self@[i as int],
    {
        self.centroids[i]
    }

    /// The compression parameter.
    pub fn delta(&self) -> (d: u32)
        ensures
            d == self.compression(),
    {
        self.delta
    }

    /// How many samples the digest has absorbed: the sum of all centroid
    /// weights.
    #[verifier::loop_isolation(false)]
    pub fn sample_count(&self) -> (n: u64)
        requires
            self.wf(),
        ensures
            n == total_weight(self@),
    {
        let mut n: u64 = 0;
        let mut i: usize = 0;
        while i < self.centroids.len()
            invariant
                0 <= i <= self@.len(),
                n == prefix_weight(self@, i as int),
                n <= MAX_TOTAL_WEIGHT,
            decreases self@.len() - i,
        {
            proof {
                lemma_prefix_weight_step(self@, i as int);
                lemma_prefix_weight_monotonic(self@, i as int + 1, self@.len() as int);
                lemma_prefix_weight_full(self@);
            }
            n = n + self.centroids[i].weight;
            i = i + 1;
        }
        proof {
            lemma_prefix_weight_full(self@);
        }
        n
    }

    /// The shared tail of both ingestion paths: joins an ascending batch
    /// into the store and re-clusters.
    fn merge_sorted_internal(&mut self, values: &Vec<i64>)
        requires
            old(self).wf(),
            sorted_values(values@),
            total_weight(old(self)@) + values@.len() <= MAX_TOTAL_WEIGHT,
        ensures
            final(self).wf(),
            final(self).compression() == old(self).compression(),
            final(self)@ == merged_digest(old(self)@, values@, old(self).compression()),
            total_weight(final(self)@) == total_weight(old(self)@) + values@.len(),
            final(self)@.len() <= old(self).compression(),
    {
        proof {
            lemma_unit_centroids_props(values@);
            lemma_merge_by_mean_props(old(self)@, unit_centroids(values@));
            lemma_cluster_spec_props(
                merge_by_mean(old(self)@, unit_centroids(values@)),
                old(self).compression(),
            );
        }
        let units = vals_to_centroids(values);
        let joined = merge_sorted_centroids(&self.centroids, &units);
        let clustered = cluster_centroids(&joined, self.delta);
        self.centroids = clustered;
    }

    /// Merges a batch of samples in any order. The batch is sorted, joined
    /// into the store as unit-weight centroids, and the store is
    /// re-clustered: afterwards the digest holds every prior sample plus
    /// the batch, in at most `delta` centroids.
    pub fn merge_vec_unsorted(&mut self, values: Vec<i64>)
        requires
            old(self).wf(),
            total_weight(old(self)@) + values@.len() <= MAX_TOTAL_WEIGHT,
        ensures
            final(self).wf(),
            final(self).compression() == old(self).compression(),
            final(self)@ == merged_digest(
                old(self)@,
                sorted_values_of(values@),
                old(self).compression(),
            ),
            total_weight(final(self)@) == total_weight(old(self)@) + values@.len(),
            final(self)@.len() <= old(self).compression(),
    {
        let mut values = values;
        sort_values(&mut values);
        proof {
            lemma_sorted_values_of_ensures(values@);
        }
        self.merge_sorted_internal(&values);
    }

    /// Merges a batch that the caller promises is already ascending; this
    /// skips the sort. A batch that is not ascending is rejected whole —
    /// admitting it would corrupt the order invariant — and the digest is
    /// left unchanged.
    pub fn merge_vec_sorted(&mut self, values: Vec<i64>) -> (r: Result<(), MergeError>)
        requires
            old(self).wf(),
            total_weight(old(self)@) + values@.len() <= MAX_TOTAL_WEIGHT,
        ensures
            final(self).wf(),
            final(self).compression() == old(self).compression(),
            r is Ok <==> sorted_values(values@),
            r is Ok ==> ({
                &&& final(self)@ == merged_digest(old(self)@, values@, old(self).compression())
                &&& total_weight(final(self)@) == total_weight(old(self)@) + values@.len()
                &&& final(self)@.len() <= old(self).compression()
            }),
            r is Err ==> final(self)@ == old(self)@ && r == Result::<(), MergeError>::Err(
                MergeError::UnsortedBatch,
            ),
    {
        let mut i: usize = 1;
        #[verifier::loop_isolation(false)]
        while i < values.len()
            invariant
                1 <= i,
                forall|k: int|
                    0 < k < i && k < values@.len() ==> values@[k - 1] <= #[trigger] values@[k],
            decreases values.len() - i,
        {
            if values[i - 1] > values[i] {
                proof {
                    assert(values@[i as int - 1] > values@[i as int]);
                    assert(!sorted_values(values@));
                }
                return Err(MergeError::UnsortedBatch);
            }
            i = i + 1;
        }
        proof {
            lemma_adjacent_implies_sorted(values@);
        }
        self.merge_sorted_internal(&values);
        Ok(())
    }
}

} // verus!
