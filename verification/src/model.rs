//! The mathematical model of a digest: sequences of centroids, their total
//! weight, prefix weights, and the ordering invariant.

use vstd::prelude::*;

use crate::centroid::Centroid;

verus! {

/// Quantiles are exchanged as fixed-point fractions: a quantile `q` in the
/// mathematical interval [0, 1] is represented by the integer
/// `q * QUANTILE_SCALE`.
pub const QUANTILE_SCALE: u64 = 1_000_000;

/// Upper bound on the total weight (number of merged samples) a digest may
/// hold. It keeps every intermediate product of the interpolation and
/// clustering arithmetic inside 128 bits.
pub const MAX_TOTAL_WEIGHT: u64 = 0xFFFF_FFFF;

/// The centroids are sorted ascending by mean; ties are permitted.
pub open spec fn sorted_by_mean(s: Seq<Centroid>) -> bool {
    forall|i: int, j: int| 0 <= i < j < s.len() ==> #[trigger] s[i].mean <= #[trigger] s[j].mean
}

/// Every centroid summarizes at least one sample.
pub open spec fn weights_positive(s: Seq<Centroid>) -> bool {
    forall|i: int| 0 <= i < s.len() ==> #[trigger] s[i].weight >= 1
}

/// Sum of the weights of all centroids in `s`: the number of samples the
/// sequence stands for.
pub open spec fn total_weight(s: Seq<Centroid>) -> int
    decreases s.len(),
{
    if s.len() == 0 {
        0
    } else {
        total_weight(s.drop_last()) + s.last().weight
    }
}

/// Sum of the weights of the first `i` centroids.
pub open spec fn prefix_weight(s: Seq<Centroid>, i: int) -> int {
    total_weight(s.take(i))
}

pub proof fn lemma_total_weight_nonneg(s: Seq<Centroid>)
    ensures
        total_weight(s) >= 0,
    decreases s.len(),
{
    if s.len() > 0 {
        lemma_total_weight_nonneg(s.drop_last());
    }
}

pub proof fn lemma_total_weight_singleton(c: Centroid)
    ensures
        total_weight(seq![c]) == c.weight,
{
    let s = seq![c];
    assert(s.len() == 1);
    assert(s.last() == c);
    assert(s.drop_last() =~= Seq::<Centroid>::empty());
    assert(total_weight(s.drop_last()) == 0);
}

pub proof fn lemma_total_weight_push(s: Seq<Centroid>, c: Centroid)
    ensures
        total_weight(s.push(c)) == total_weight(s) + c.weight,
{
    assert(s.push(c).drop_last() =~= s);
}

pub proof fn lemma_total_weight_concat(a: Seq<Centroid>, b: Seq<Centroid>)
    ensures
        total_weight(a + b) == total_weight(a) + total_weight(b),
    decreases b.len(),
{
    if b.len() == 0 {
        assert(a + b =~= a);
    } else {
        lemma_total_weight_concat(a, b.drop_last());
        assert((a + b).drop_last() =~= a + b.drop_last());
    }
}

/// Peeling one centroid off the front of the sequence.
pub proof fn lemma_total_weight_drop_first(s: Seq<Centroid>)
    requires
        s.len() > 0,
    ensures
        total_weight(s) == s[0].weight + total_weight(s.drop_first()),
    decreases s.len(),
{
    if s.len() == 1 {
        assert(s.drop_last() =~= Seq::<Centroid>::empty());
        assert(s.drop_first() =~= Seq::<Centroid>::empty());
    } else {
        lemma_total_weight_drop_first(s.drop_last());
        assert(s.drop_last().drop_first() =~= s.drop_first().drop_last());
        assert(s.drop_first().last() == s.last());
        assert(s.drop_last()[0] == s[0]);
    }
}

/// A prefix weighs no more than the whole sequence, and grows with each
/// further centroid.
pub proof fn lemma_prefix_weight_step(s: Seq<Centroid>, i: int)
    requires
        0 <= i < s.len(),
    ensures
        prefix_weight(s, i + 1) == prefix_weight(s, i) + s[i].weight,
{
    assert(s.take(i + 1).drop_last() =~= s.take(i));
    assert(s.take(i + 1).last() == s[i]);
}

pub proof fn lemma_prefix_weight_full(s: Seq<Centroid>)
    ensures
        prefix_weight(s, s.len() as int) == total_weight(s),
{
    assert(s.take(s.len() as int) =~= s);
}

/// Each sample counts at least once: `i` centroids weigh at least `i`.
pub proof fn lemma_prefix_weight_at_least_len(s: Seq<Centroid>, i: int)
    requires
        weights_positive(s),
        0 <= i <= s.len(),
    ensures
        prefix_weight(s, i) >= i,
    decreases i,
{
    if i > 0 {
        lemma_prefix_weight_at_least_len(s, i - 1);
        lemma_prefix_weight_step(s, i - 1);
    }
}

/// A prefix of the tail, seen from the whole sequence.
pub proof fn lemma_prefix_weight_drop_first(s: Seq<Centroid>, k: int)
    requires
        s.len() >= 1,
        0 <= k <= s.len() - 1,
    ensures
        prefix_weight(s, k + 1) == s[0].weight + prefix_weight(s.drop_first(), k),
{
    assert(s.take(k + 1).drop_first() =~= s.drop_first().take(k));
    lemma_total_weight_drop_first(s.take(k + 1));
    assert(s.take(k + 1)[0] == s[0]);
}

/// Prefix weights are monotone in the prefix length.
pub proof fn lemma_prefix_weight_monotonic(s: Seq<Centroid>, i: int, j: int)
    requires
        0 <= i <= j <= s.len(),
        weights_positive(s),
    ensures
        prefix_weight(s, i) <= prefix_weight(s, j),
        prefix_weight(s, j) - prefix_weight(s, i) >= j - i,
    decreases j - i,
{
    if i < j {
        lemma_prefix_weight_monotonic(s, i, j - 1);
        lemma_prefix_weight_step(s, j - 1);
    }
}

} // verus!
