//! Laws of the digest that relate several operations: bounds and
//! monotonicity of the CDF estimate, exactness at the boundaries, and the
//! agreement of the two ingestion paths.

use vstd::prelude::*;

use crate::centroid::Centroid;
use crate::model::{
    lemma_prefix_weight_at_least_len, lemma_prefix_weight_full, lemma_prefix_weight_monotonic,
    lemma_prefix_weight_step, prefix_weight, sorted_by_mean, total_weight, weights_positive,
    MAX_TOTAL_WEIGHT, QUANTILE_SCALE,
};
use crate::query::{
    centroid_quantile_num, estimate_quantile_spec, estimate_value_spec, lemma_locate_props,
    lemma_locate_unique, locate,
};
use crate::sort::{lemma_sorted_values_unique, sorted_values, sorted_values_of};
use crate::tdigest::merged_digest;
use vstd::arithmetic::div_mod::{
    lemma_div_denominator, lemma_div_is_ordered, lemma_div_multiples_vanish, lemma_div_of0,
    lemma_fundamental_div_mod,
};

verus! {

/// Merging a batch through the unsorted path leaves the same digest as
/// merging any ascending reordering of it through the pre-sorted path:
/// the two paths differ only in who sorts.
pub proof fn lemma_merge_order_equivalence(
    store: Seq<Centroid>,
    batch: Seq<i64>,
    sorted_batch: Seq<i64>,
    delta: int,
)
    requires
        sorted_values(sorted_batch),
        sorted_batch.to_multiset() == batch.to_multiset(),
    ensures
        merged_digest(store, sorted_values_of(batch), delta) == merged_digest(
            store,
            sorted_batch,
            delta,
        ),
{
    lemma_sorted_values_unique(batch, sorted_batch);
}

/// The quantile-midpoint numerator of centroid `i` is the sum of the
/// weight strictly before it and the weight through it, so it ascends
/// with the index.
proof fn lemma_cq_num_identity(s: Seq<Centroid>, i: int)
    requires
        0 <= i < s.len(),
    ensures
        centroid_quantile_num(s, i) == prefix_weight(s, i) + prefix_weight(s, i + 1),
{
    lemma_prefix_weight_step(s, i);
}

/// `a / b <= c / d` whenever the fractions compare that way, for
/// positive denominators: cross-multiplied monotonicity of floored
/// division.
proof fn lemma_div_frac_mono(a: int, b: int, c: int, d: int)
    requires
        0 <= a,
        b > 0,
        d > 0,
        a * d <= c * b,
    ensures
        a / b <= c / d,
{
    let q = a / b;
    lemma_fundamental_div_mod(a, b);
    assert(b * q <= a) by {
        assert(a == b * q + a % b);
        vstd::arithmetic::div_mod::lemma_mod_bound(a, b);
    }
    assert(q * d <= c) by (nonlinear_arith)
        requires
            b * q <= a,
            a * d <= c * b,
            b > 0,
            d > 0,
    ;
    assert(q * d == d * q) by (nonlinear_arith);
    lemma_div_is_ordered(d * q, c, d);
    lemma_div_multiples_vanish(q, d);
}

/// The CDF estimate always lands inside `[0, QUANTILE_SCALE]`.
pub proof fn lemma_estimate_quantile_bounds(s: Seq<Centroid>, v: int)
    requires
        sorted_by_mean(s),
        weights_positive(s),
    ensures
        0 <= estimate_quantile_spec(s, v) <= QUANTILE_SCALE,
{
    lemma_locate_props(s, v);
    let p = locate(s, v);
    if 0 < p < s.len() {
        let nl = centroid_quantile_num(s, p - 1);
        let nr = centroid_quantile_num(s, p);
        let ml = s[p - 1].mean;
        let mr = s[p].mean;
        let w = total_weight(s);
        let num = QUANTILE_SCALE * (nl * (mr - v) + nr * (v - ml));
        let den = 2 * w * (mr - ml);
        lemma_cq_num_identity(s, p - 1);
        lemma_cq_num_identity(s, p);
        lemma_prefix_weight_at_least_len(s, p);
        assert(s.take(0) =~= Seq::<Centroid>::empty());
        lemma_prefix_weight_monotonic(s, 0, p - 1);
        lemma_prefix_weight_monotonic(s, p - 1, p + 1);
        lemma_prefix_weight_monotonic(s, p + 1, s.len() as int);
        lemma_prefix_weight_full(s);
        assert(ml < v <= mr);
        assert(0 < nl <= 2 * w && 0 < nr <= 2 * w);
        assert(w >= 1);
        assert(0 <= nl * (mr - v) + nr * (v - ml) <= 2 * w * (mr - ml)) by (nonlinear_arith)
            requires
                0 < nl <= 2 * w,
                0 < nr <= 2 * w,
                ml < v <= mr,
        ;
        assert(den > 0) by (nonlinear_arith)
            requires
                den == 2 * w * (mr - ml),
                w >= 1,
                ml < mr,
        ;
        assert(num >= 0);
        assert(num <= QUANTILE_SCALE * den) by (nonlinear_arith)
            requires
                0 <= nl * (mr - v) + nr * (v - ml) <= 2 * w * (mr - ml),
                num == QUANTILE_SCALE * (nl * (mr - v) + nr * (v - ml)),
                den == 2 * w * (mr - ml),
        ;
        assert(num / den >= 0) by {
            lemma_div_of0(den);
            lemma_div_is_ordered(0, num, den);
        }
        assert(num / den <= QUANTILE_SCALE) by {
            lemma_div_is_ordered(num, QUANTILE_SCALE * den, den);
            lemma_div_multiples_vanish(QUANTILE_SCALE as int, den);
        }
    }
}

/// `locate` never moves left as the queried value grows.
proof fn lemma_locate_monotonic(s: Seq<Centroid>, v1: int, v2: int)
    requires
        sorted_by_mean(s),
        v1 <= v2,
    ensures
        locate(s, v1) <= locate(s, v2),
{
    lemma_locate_props(s, v1);
    lemma_locate_props(s, v2);
    if locate(s, v2) < locate(s, v1) {
        assert(s[locate(s, v2)].mean >= v2);
        assert(s[locate(s, v2)].mean < v1);
    }
}

/// Monotonicity of the CDF estimate: querying a larger value never
/// yields a smaller quantile.
pub proof fn lemma_estimate_quantile_monotonic(s: Seq<Centroid>, v1: int, v2: int)
    requires
        sorted_by_mean(s),
        weights_positive(s),
        v1 <= v2,
    ensures
        estimate_quantile_spec(s, v1) <= estimate_quantile_spec(s, v2),
{
    lemma_locate_props(s, v1);
    lemma_locate_props(s, v2);
    lemma_locate_monotonic(s, v1, v2);
    lemma_estimate_quantile_bounds(s, v1);
    lemma_estimate_quantile_bounds(s, v2);
    let p1 = locate(s, v1);
    let p2 = locate(s, v2);
    if p1 == 0 || p2 == s.len() {
        // One side is pinned to an endpoint of [0, QUANTILE_SCALE] and
        // the bounds close the case.
    } else {
        let w = total_weight(s);
        lemma_prefix_weight_at_least_len(s, p1);
        lemma_prefix_weight_full(s);
        assert(w >= 1) by {
            lemma_prefix_weight_monotonic(s, p1, s.len() as int);
        }
        let nl1 = centroid_quantile_num(s, p1 - 1);
        let nr1 = centroid_quantile_num(s, p1);
        let ml1 = s[p1 - 1].mean;
        let mr1 = s[p1].mean;
        let n1 = nl1 * (mr1 - v1) + nr1 * (v1 - ml1);
        let den1 = 2 * w * (mr1 - ml1);
        lemma_cq_num_identity(s, p1 - 1);
        lemma_cq_num_identity(s, p1);
        lemma_prefix_weight_step(s, p1 - 1);
        lemma_prefix_weight_step(s, p1);
        assert(s.take(0) =~= Seq::<Centroid>::empty());
        lemma_prefix_weight_monotonic(s, 0, p1 - 1);
        lemma_prefix_weight_monotonic(s, p1 + 1, s.len() as int);
        assert(ml1 < v1 <= mr1);
        assert(0 < nl1 < nr1 <= 2 * w);
        assert(den1 > 0) by (nonlinear_arith)
            requires
                den1 == 2 * w * (mr1 - ml1),
                w >= 1,
                ml1 < mr1,
        ;
        let nl2 = centroid_quantile_num(s, p2 - 1);
        let nr2 = centroid_quantile_num(s, p2);
        let ml2 = s[p2 - 1].mean;
        let mr2 = s[p2].mean;
        let n2 = nl2 * (mr2 - v2) + nr2 * (v2 - ml2);
        let den2 = 2 * w * (mr2 - ml2);
        lemma_cq_num_identity(s, p2 - 1);
        lemma_cq_num_identity(s, p2);
        lemma_prefix_weight_step(s, p2 - 1);
        lemma_prefix_weight_step(s, p2);
        lemma_prefix_weight_monotonic(s, 0, p2 - 1);
        lemma_prefix_weight_monotonic(s, p2 + 1, s.len() as int);
        assert(ml2 < v2 <= mr2);
        assert(0 < nl2 < nr2 <= 2 * w);
        assert(den2 > 0) by (nonlinear_arith)
            requires
                den2 == 2 * w * (mr2 - ml2),
                w >= 1,
                ml2 < mr2,
        ;
        if p1 == p2 {
            // Same segment: the interpolated numerator grows with v and
            // the denominator is shared.
            assert(n2 - n1 == (v2 - v1) * (nr1 - nl1)) by (nonlinear_arith)
                requires
                    n1 == nl1 * (mr1 - v1) + nr1 * (v1 - ml1),
                    n2 == nl1 * (mr1 - v2) + nr1 * (v2 - ml1),
            ;
            assert(n2 - n1 >= 0) by (nonlinear_arith)
                requires
                    n2 - n1 == (v2 - v1) * (nr1 - nl1),
                    v1 <= v2,
                    nl1 <= nr1,
            ;
            assert(n1 >= 0) by (nonlinear_arith)
                requires
                    n1 == nl1 * (mr1 - v1) + nr1 * (v1 - ml1),
                    0 < nl1,
                    0 < nr1,
                    ml1 < v1 <= mr1,
            ;
            assert(QUANTILE_SCALE * n1 <= QUANTILE_SCALE * n2);
            lemma_div_is_ordered(QUANTILE_SCALE * n1, QUANTILE_SCALE * n2, den1);
        } else {
            // Different segments: the left estimate stays below its
            // segment's right quantile midpoint, the right estimate above
            // its segment's left midpoint, and the midpoints ascend.
            assert(p1 < p2);
            // est1 <= QUANTILE_SCALE * nr1 / (2 * w)
            assert(n1 <= nr1 * (mr1 - ml1)) by (nonlinear_arith)
                requires
                    nl1 <= nr1,
                    0 < nl1,
                    ml1 < v1 <= mr1,
                    n1 == nl1 * (mr1 - v1) + nr1 * (v1 - ml1),
            ;
            assert(n1 >= 0) by (nonlinear_arith)
                requires
                    n1 == nl1 * (mr1 - v1) + nr1 * (v1 - ml1),
                    0 < nl1,
                    0 < nr1,
                    ml1 < v1 <= mr1,
            ;
            assert((QUANTILE_SCALE * n1) * (2 * w) <= (QUANTILE_SCALE * nr1) * den1)
                by (nonlinear_arith)
                requires
                    n1 <= nr1 * (mr1 - ml1),
                    den1 == 2 * w * (mr1 - ml1),
                    w >= 1,
                    n1 >= 0,
            ;
            lemma_div_frac_mono(QUANTILE_SCALE * n1, den1, QUANTILE_SCALE * nr1, 2 * w);
            // QUANTILE_SCALE * nr1 / (2 * w) <= QUANTILE_SCALE * nl2 / (2 * w)
            assert(nr1 <= nl2) by {
                lemma_prefix_weight_monotonic(s, p1, p2 - 1);
                lemma_prefix_weight_monotonic(s, p1 + 1, p2);
            }
            lemma_div_is_ordered(QUANTILE_SCALE * nr1, QUANTILE_SCALE * nl2, 2 * w);
            // QUANTILE_SCALE * nl2 / (2 * w) <= est2
            assert(nl2 * (mr2 - ml2) <= n2) by (nonlinear_arith)
                requires
                    nl2 <= nr2,
                    ml2 < v2 <= mr2,
                    n2 == nl2 * (mr2 - v2) + nr2 * (v2 - ml2),
            ;
            assert((QUANTILE_SCALE * nl2) * den2 <= (QUANTILE_SCALE * n2) * (2 * w))
                by (nonlinear_arith)
                requires
                    nl2 * (mr2 - ml2) <= n2,
                    den2 == 2 * w * (mr2 - ml2),
                    w >= 1,
                    nl2 >= 0,
            ;
            lemma_div_frac_mono(QUANTILE_SCALE * nl2, 2 * w, QUANTILE_SCALE * n2, den2);
        }
    }
}

/// Boundary exactness: the least observed mean sits at quantile 0, the
/// inverse query returns the least mean at quantile 0 and the greatest at
/// 1, and when the greatest mean stands alone its quantile is exactly its
/// own midpoint, `1 - weight_last / (2 * total)`.
pub proof fn lemma_boundary_exactness(s: Seq<Centroid>)
    requires
        sorted_by_mean(s),
        weights_positive(s),
        s.len() >= 1,
    ensures
        estimate_quantile_spec(s, s[0].mean as int) == 0,
        estimate_value_spec(s, 0) == s[0].mean,
        estimate_value_spec(s, QUANTILE_SCALE as int) == s[s.len() - 1].mean,
        s.len() >= 2 && s[s.len() - 2].mean < s[s.len() - 1].mean
            ==> estimate_quantile_spec(s, s[s.len() - 1].mean as int) == QUANTILE_SCALE * (2
            * total_weight(s) - s[s.len() - 1].weight) / (2 * total_weight(s)),
{
    assert(locate(s, s[0].mean as int) == 0);
    if s.len() >= 2 && s[s.len() - 2].mean < s[s.len() - 1].mean {
        let n = s.len() as int;
        let v = s[n - 1].mean as int;
        let w = total_weight(s);
        assert forall|i: int| 0 <= i < n - 1 implies #[trigger] s[i].mean < v by {
            assert(s[i].mean <= s[n - 2].mean);
        }
        lemma_locate_unique(s, v, n - 1);
        let p = n - 1;
        let nl = centroid_quantile_num(s, p - 1);
        let nr = centroid_quantile_num(s, p);
        let ml = s[p - 1].mean;
        let mr = s[p].mean;
        let dm = mr - ml;
        lemma_cq_num_identity(s, p);
        lemma_prefix_weight_step(s, p);
        lemma_prefix_weight_full(s);
        lemma_prefix_weight_at_least_len(s, p);
        assert(nr == 2 * w - s[p].weight);
        assert(w >= 1);
        // With v at the right mean the interpolation lands exactly on
        // the right midpoint: the shared factor (mr - ml) cancels.
        let num = QUANTILE_SCALE * (nl * (mr - v) + nr * (v - ml));
        assert(num == (QUANTILE_SCALE * nr) * dm) by (nonlinear_arith)
            requires
                v == mr,
                num == QUANTILE_SCALE * (nl * (mr - v) + nr * (v - ml)),
                dm == mr - ml,
        ;
        let den = 2 * w * dm;
        assert(den == dm * (2 * w)) by (nonlinear_arith)
            requires
                den == 2 * w * dm,
        ;
        assert(nr >= 1);
        assert((QUANTILE_SCALE * nr) * dm == dm * (QUANTILE_SCALE * nr)) by (nonlinear_arith);
        assert(dm >= 1);
        lemma_div_denominator(dm * (QUANTILE_SCALE * nr), dm, 2 * w);
        lemma_div_multiples_vanish(QUANTILE_SCALE * nr, dm);
        assert(num / den == (QUANTILE_SCALE * nr) / (2 * w));
    }
}

} // verus!
