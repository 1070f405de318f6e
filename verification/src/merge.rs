//! Turning raw samples into unit-weight centroids and joining two sorted
//! centroid sequences with a linear two-pointer merge.

use vstd::prelude::*;

use crate::centroid::Centroid;
use crate::model::{
    lemma_total_weight_drop_first, sorted_by_mean, total_weight, weights_positive,
};

verus! {

/// One unit-weight centroid per raw sample, in batch order.
pub open spec fn unit_centroids(vs: Seq<i64>) -> Seq<Centroid> {
    vs.map_values(|x: i64| Centroid { mean: x, weight: 1u64 })
}

/// Unit centroids inherit the batch's order, weigh one each, and weigh
/// `vs.len()` in total.
pub proof fn lemma_unit_centroids_props(vs: Seq<i64>)
    ensures
        unit_centroids(vs).len() == vs.len(),
        weights_positive(unit_centroids(vs)),
        crate::sort::sorted_values(vs) ==> sorted_by_mean(unit_centroids(vs)),
        total_weight(unit_centroids(vs)) == vs.len(),
        forall|i: int|
            0 <= i < vs.len() ==> #[trigger] unit_centroids(vs)[i] == (Centroid {
                mean: vs[i],
                weight: 1u64,
            }),
    decreases vs.len(),
{
    if vs.len() > 0 {
        lemma_unit_centroids_props(vs.drop_last());
        assert(unit_centroids(vs).drop_last() =~= unit_centroids(vs.drop_last()));
        assert(unit_centroids(vs).last().weight == 1);
    }
}

/// The two-pointer join of two sequences sorted by mean: repeatedly take
/// whichever front centroid has the smaller mean, preferring the left
/// sequence on ties.
pub open spec fn merge_by_mean(a: Seq<Centroid>, b: Seq<Centroid>) -> Seq<Centroid>
    decreases a.len() + b.len(),
{
    if a.len() == 0 {
        b
    } else if b.len() == 0 {
        a
    } else if a[0].mean <= b[0].mean {
        seq![a[0]] + merge_by_mean(a.drop_first(), b)
    } else {
        seq![b[0]] + merge_by_mean(a, b.drop_first())
    }
}

/// The join is sorted, keeps every weight, and spans exactly the two
/// inputs' weight.
pub proof fn lemma_merge_by_mean_props(a: Seq<Centroid>, b: Seq<Centroid>)
    requires
        sorted_by_mean(a),
        sorted_by_mean(b),
        weights_positive(a),
        weights_positive(b),
    ensures
        merge_by_mean(a, b).len() == a.len() + b.len(),
        sorted_by_mean(merge_by_mean(a, b)),
        weights_positive(merge_by_mean(a, b)),
        total_weight(merge_by_mean(a, b)) == total_weight(a) + total_weight(b),
        merge_by_mean(a, b).len() > 0 ==> (a.len() > 0 && merge_by_mean(a, b)[0].mean >= a[0].mean)
            || (b.len() > 0 && merge_by_mean(a, b)[0].mean >= b[0].mean),
        forall|i: int|
            0 <= i < merge_by_mean(a, b).len() ==> (a.len() > 0 && #[trigger] merge_by_mean(
                a,
                b,
            )[i].mean >= a[0].mean) || (b.len() > 0 && merge_by_mean(a, b)[i].mean >= b[0].mean),
    decreases a.len() + b.len(),
{
    let out = merge_by_mean(a, b);
    if a.len() == 0 || b.len() == 0 {
    } else if a[0].mean <= b[0].mean {
        lemma_merge_by_mean_props(a.drop_first(), b);
        let tail = merge_by_mean(a.drop_first(), b);
        assert(out == seq![a[0]] + tail);
        assert(out[0] == a[0]);
        assert(forall|i: int| 0 <= i < tail.len() ==> out[i + 1] == #[trigger] tail[i]);
        lemma_total_weight_drop_first(a);
        crate::model::lemma_total_weight_singleton(a[0]);
        crate::model::lemma_total_weight_concat(seq![a[0]], tail);
        assert(forall|i: int|
            0 <= i < a.drop_first().len() ==> a.drop_first()[i] == #[trigger] a[i + 1]);
        assert(sorted_by_mean(a.drop_first()));
        assert(forall|j: int| 1 <= j < out.len() ==> #[trigger] out[j].mean >= a[0].mean);
    } else {
        lemma_merge_by_mean_props(a, b.drop_first());
        let tail = merge_by_mean(a, b.drop_first());
        assert(out == seq![b[0]] + tail);
        assert(out[0] == b[0]);
        assert(forall|i: int| 0 <= i < tail.len() ==> out[i + 1] == #[trigger] tail[i]);
        lemma_total_weight_drop_first(b);
        crate::model::lemma_total_weight_singleton(b[0]);
        crate::model::lemma_total_weight_concat(seq![b[0]], tail);
        assert(forall|i: int|
            0 <= i < b.drop_first().len() ==> b.drop_first()[i] == #[trigger] b[i + 1]);
        assert(sorted_by_mean(b.drop_first()));
        assert(forall|j: int| 1 <= j < out.len() ==> #[trigger] out[j].mean >= b[0].mean);
    }
}

/// Joins two sequences sorted by mean in linear time.
#[verifier::loop_isolation(false)]
pub(crate) fn merge_sorted_centroids(a: &Vec<Centroid>, b: &Vec<Centroid>) -> (out: Vec<Centroid>)
    requires
        sorted_by_mean(a@),
        sorted_by_mean(b@),
    ensures
        out@ == merge_by_mean(a@, b@),
{
    let mut out: Vec<Centroid> = Vec::new();
    let mut i: usize = 0;
    let mut j: usize = 0;
    proof {
        assert(a@.skip(0) =~= a@);
        assert(b@.skip(0) =~= b@);
        assert(out@ + merge_by_mean(a@, b@) =~= merge_by_mean(a@, b@));
    }
    while i < a.len() || j < b.len()
        invariant
            0 <= i <= a.len(),
            0 <= j <= b.len(),
            merge_by_mean(a@, b@) == out@ + merge_by_mean(
                a@.skip(i as int),
                b@.skip(j as int),
            ),
        decreases a.len() - i + b.len() - j,
    {
        let ghost ra = a@.skip(i as int);
        let ghost rb = b@.skip(j as int);
        let take_a: bool = if i < a.len() {
            if j < b.len() {
                a[i].mean <= b[j].mean
            } else {
                true
            }
        } else {
            false
        };
        if take_a {
            proof {
                assert(ra[0] == a@[i as int]);
                assert(ra.drop_first() =~= a@.skip(i as int + 1));
                if rb.len() == 0 {
                    assert(merge_by_mean(ra, rb) == ra);
                    assert(ra =~= seq![ra[0]] + ra.drop_first());
                    assert(merge_by_mean(ra.drop_first(), rb) == ra.drop_first());
                }
                assert(merge_by_mean(ra, rb) == seq![ra[0]] + merge_by_mean(ra.drop_first(), rb));
                assert(out@ + merge_by_mean(ra, rb) =~= out@.push(a@[i as int]) + merge_by_mean(
                    ra.drop_first(),
                    rb,
                ));
            }
            out.push(a[i]);
            i = i + 1;
        } else {
            proof {
                assert(rb.len() > 0);
                assert(rb[0] == b@[j as int]);
                assert(rb.drop_first() =~= b@.skip(j as int + 1));
                if ra.len() == 0 {
                    assert(merge_by_mean(ra, rb) == rb);
                    assert(rb =~= seq![rb[0]] + rb.drop_first());
                    assert(merge_by_mean(ra, rb.drop_first()) == rb.drop_first());
                }
                assert(merge_by_mean(ra, rb) == seq![rb[0]] + merge_by_mean(ra, rb.drop_first()));
                assert(out@ + merge_by_mean(ra, rb) =~= out@.push(b@[j as int]) + merge_by_mean(
                    ra,
                    rb.drop_first(),
                ));
            }
            out.push(b[j]);
            j = j + 1;
        }
    }
    proof {
        assert(a@.skip(i as int).len() == 0);
        assert(b@.skip(j as int).len() == 0);
        assert(merge_by_mean(a@.skip(i as int), b@.skip(j as int)).len() == 0);
        assert(out@ =~= out@ + merge_by_mean(a@.skip(i as int), b@.skip(j as int)));
    }
    out
}

/// Converts a batch of raw samples to unit-weight centroids.
#[verifier::loop_isolation(false)]
pub(crate) fn vals_to_centroids(vs: &Vec<i64>) -> (out: Vec<Centroid>)
    ensures
        out@ == unit_centroids(vs@),
{
    let mut out: Vec<Centroid> = Vec::new();
    let mut i: usize = 0;
    while i < vs.len()
        invariant
            0 <= i <= vs.len(),
            out@.len() == i,
            forall|k: int|
                0 <= k < i ==> #[trigger] out@[k] == (Centroid { mean: vs@[k], weight: 1u64 }),
        decreases vs.len() - i,
    {
        out.push(Centroid { mean: vs[i], weight: 1 });
        i = i + 1;
    }
    proof {
        lemma_unit_centroids_props(vs@);
        assert(out@ =~= unit_centroids(vs@));
    }
    out
}

} // verus!
