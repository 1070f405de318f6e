//! The query engine: binary search over the centroid store plus exact
//! rational interpolation, for both directions of the CDF.
//!
//! A quantile is exchanged as a fixed-point fraction of
//! [`QUANTILE_SCALE`]. Every interpolation below is a single rational
//! expression evaluated exactly in wide integers and floored once at the
//! end, so the contracts pin each answer down to the exact integer.

use vstd::prelude::*;

use crate::centroid::Centroid;
use crate::model::{
    lemma_prefix_weight_at_least_len, lemma_prefix_weight_full, lemma_prefix_weight_monotonic,
    lemma_prefix_weight_step, prefix_weight, sorted_by_mean, total_weight, weights_positive,
    MAX_TOTAL_WEIGHT, QUANTILE_SCALE,
};
use crate::tdigest::TDigest;
use vstd::arithmetic::div_mod::{
    lemma_div_is_ordered, lemma_div_is_ordered_by_denominator, lemma_div_multiples_vanish,
};
use vstd::arithmetic::mul::{lemma_mul_inequality, lemma_mul_upper_bound};

verus! {

/// Index of the first centroid whose mean is at or above `v`; `s.len()`
/// when every mean is below `v`. On a sorted store this is the insertion
/// position of `v`, and an exact mean match resolves to that centroid's
/// own index.
pub open spec fn locate(s: Seq<Centroid>, v: int) -> int
    decreases s.len(),
{
    if s.len() == 0 {
        0
    } else if s[0].mean >= v {
        0
    } else {
        1 + locate(s.drop_first(), v)
    }
}

/// On a sorted store, `locate` splits the centroids into those with means
/// below `v` and those with means at or above it.
pub proof fn lemma_locate_props(s: Seq<Centroid>, v: int)
    requires
        sorted_by_mean(s),
    ensures
        0 <= locate(s, v) <= s.len(),
        forall|i: int| 0 <= i < locate(s, v) ==> #[trigger] s[i].mean < v,
        forall|i: int| locate(s, v) <= i < s.len() ==> #[trigger] s[i].mean >= v,
    decreases s.len(),
{
    if s.len() > 0 && s[0].mean < v {
        lemma_locate_props(s.drop_first(), v);
        let p = locate(s, v);
        assert(p == 1 + locate(s.drop_first(), v));
        assert forall|i: int| 0 <= i < p implies #[trigger] s[i].mean < v by {
            if i > 0 {
                assert(s.drop_first()[i - 1] == s[i]);
            }
        }
        assert forall|i: int| p <= i < s.len() implies #[trigger] s[i].mean >= v by {
            assert(s.drop_first()[i - 1] == s[i]);
        }
    }
}

/// Any index with the same split property is `locate`.
pub proof fn lemma_locate_unique(s: Seq<Centroid>, v: int, p: int)
    requires
        sorted_by_mean(s),
        0 <= p <= s.len(),
        forall|i: int| 0 <= i < p ==> #[trigger] s[i].mean < v,
        forall|i: int| p <= i < s.len() ==> #[trigger] s[i].mean >= v,
    ensures
        p == locate(s, v),
{
    lemma_locate_props(s, v);
    if p < locate(s, v) {
        assert(s[p].mean < v);
    }
    if locate(s, v) < p {
        assert(s[locate(s, v)].mean < v);
    }
}

/// Numerator, over the common denominator `2 * total_weight(s)`, of the
/// quantile midpoint of centroid `i`: half its own weight sits below its
/// mean, so its midpoint is `(prefix_weight(s, i+1) - weight_i / 2) /
/// total_weight(s)`.
pub open spec fn centroid_quantile_num(s: Seq<Centroid>, i: int) -> int {
    2 * prefix_weight(s, i + 1) - s[i].weight
}

/// The CDF estimate, scaled by [`QUANTILE_SCALE`]: 0 at or below the
/// least mean, 1 above the greatest, and otherwise the linear
/// interpolation, by the position of `v` between the two neighboring
/// means, between the neighbors' quantile midpoints — floored once.
pub open spec fn estimate_quantile_spec(s: Seq<Centroid>, v: int) -> int {
    let p = locate(s, v);
    if p == 0 {
        0
    } else if p == s.len() {
        QUANTILE_SCALE as int
    } else {
        let nl = centroid_quantile_num(s, p - 1);
        let nr = centroid_quantile_num(s, p);
        let ml = s[p - 1].mean;
        let mr = s[p].mean;
        QUANTILE_SCALE * (nl * (mr - v) + nr * (v - ml)) / (2 * total_weight(s) * (mr - ml))
    }
}

/// The centroid whose cumulative weight window contains the target rank
/// `wq / QUANTILE_SCALE`, by a canonical left-to-right weight
/// accumulation; the last index when the rank runs past the total.
pub open spec fn value_pos(s: Seq<Centroid>, wq: int) -> int
    decreases s.len(),
{
    if s.len() <= 1 {
        0
    } else if wq < QUANTILE_SCALE * s[0].weight {
        0
    } else {
        1 + value_pos(s.drop_first(), wq - QUANTILE_SCALE * s[0].weight)
    }
}

/// The canonical position brackets the rank between the weight
/// accumulated strictly before it and that through it.
pub proof fn lemma_value_pos_props(s: Seq<Centroid>, wq: int)
    requires
        weights_positive(s),
        s.len() >= 1,
        0 <= wq,
    ensures
        0 <= value_pos(s, wq) < s.len(),
        QUANTILE_SCALE * prefix_weight(s, value_pos(s, wq)) <= wq,
        wq < QUANTILE_SCALE * total_weight(s) ==> wq < QUANTILE_SCALE * prefix_weight(
            s,
            value_pos(s, wq) + 1,
        ),
    decreases s.len(),
{
    assert(s.take(0) =~= Seq::<Centroid>::empty());
    lemma_prefix_weight_full(s);
    if s.len() == 1 {
    } else if wq < QUANTILE_SCALE * s[0].weight {
        crate::model::lemma_prefix_weight_drop_first(s, 0);
        assert(s.drop_first().take(0) =~= Seq::<Centroid>::empty());
        assert(prefix_weight(s, 1) == s[0].weight);
    } else {
        let rest = s.drop_first();
        let wq2 = wq - QUANTILE_SCALE * s[0].weight;
        assert(forall|i: int| 0 <= i < rest.len() ==> rest[i] == #[trigger] s[i + 1]);
        lemma_value_pos_props(rest, wq2);
        let p2 = value_pos(rest, wq2);
        crate::model::lemma_prefix_weight_drop_first(s, p2);
        crate::model::lemma_prefix_weight_drop_first(s, p2 + 1);
        crate::model::lemma_total_weight_drop_first(s);
    }
}

/// Any position that brackets the rank is the canonical one.
pub proof fn lemma_value_pos_unique(s: Seq<Centroid>, wq: int, p: int)
    requires
        weights_positive(s),
        s.len() >= 1,
        0 <= wq < QUANTILE_SCALE * total_weight(s),
        0 <= p < s.len(),
        QUANTILE_SCALE * prefix_weight(s, p) <= wq,
        wq < QUANTILE_SCALE * prefix_weight(s, p + 1),
    ensures
        p == value_pos(s, wq),
{
    lemma_value_pos_props(s, wq);
    let pos = value_pos(s, wq);
    if p < pos {
        lemma_prefix_weight_monotonic(s, p + 1, pos);
        assert(false);
    }
    if pos < p {
        lemma_prefix_weight_monotonic(s, pos + 1, p);
        assert(false);
    }
}

/// Twice the interpolation half-width around `pos`: the gap to the one
/// adjacent centroid at either end of the store, half the gap between the
/// two neighbors in the middle, and zero when a single centroid holds
/// everything.
pub open spec fn span_twice(s: Seq<Centroid>, pos: int) -> int {
    if s.len() <= 1 {
        0
    } else if pos == 0 {
        2 * (s[1].mean - s[0].mean)
    } else if pos == s.len() - 1 {
        2 * (s[pos].mean - s[pos - 1].mean)
    } else {
        s[pos + 1].mean - s[pos - 1].mean
    }
}

/// Lower clamp bound for the interpolation around `pos`: the left
/// neighbor's mean, or the least mean when there is none.
pub open spec fn clamp_lo(s: Seq<Centroid>, pos: int) -> int {
    if s.len() <= 1 || pos == 0 {
        s[0].mean as int
    } else {
        s[pos - 1].mean as int
    }
}

/// Upper clamp bound: the right neighbor's mean, or the greatest mean
/// when there is none.
pub open spec fn clamp_hi(s: Seq<Centroid>, pos: int) -> int {
    if s.len() <= 1 {
        s[0].mean as int
    } else if pos == 0 {
        s[1].mean as int
    } else if pos == s.len() - 1 {
        s[s.len() - 1].mean as int
    } else {
        s[pos + 1].mean as int
    }
}

/// `num * factor / den`, floored towards zero, for a possibly negative
/// `num` and positive `factor` and `den`.
pub open spec fn signed_scaled_div(num: int, factor: int, den: int) -> int {
    if num >= 0 {
        num * factor / den
    } else {
        -((-num) * factor / den)
    }
}

/// `x` forced into `[lo, hi]`.
pub open spec fn clamp(x: int, lo: int, hi: int) -> int {
    if x < lo {
        lo
    } else if x > hi {
        hi
    } else {
        x
    }
}

/// The inverse-CDF estimate for the fixed-point quantile `q`: the least
/// mean at or below 0, the greatest at or above `QUANTILE_SCALE`, 0 on an
/// empty digest, and otherwise a linear interpolation within the weight
/// window of the centroid containing the target rank `total_weight * q /
/// QUANTILE_SCALE`, clamped to the neighboring means.
pub open spec fn estimate_value_spec(s: Seq<Centroid>, q: int) -> int {
    if s.len() == 0 {
        0
    } else if q <= 0 {
        s[0].mean as int
    } else if q >= QUANTILE_SCALE {
        s[s.len() - 1].mean as int
    } else {
        let wq = total_weight(s) * q;
        let pos = value_pos(s, wq);
        let num2 = 2 * (wq - QUANTILE_SCALE * prefix_weight(s, pos)) - QUANTILE_SCALE * s[
            pos
        ].weight;
        let den = 4 * QUANTILE_SCALE * s[pos].weight;
        clamp(
            s[pos].mean + signed_scaled_div(num2, span_twice(s, pos), den),
            clamp_lo(s, pos),
            clamp_hi(s, pos),
        )
    }
}

impl TDigest {
    /// Binary search: the insertion position of `mean` in the ordered
    /// store, i.e. the index of the first centroid whose mean is at or
    /// above it.
    #[verifier::loop_isolation(false)]
    pub fn search_centroids(&self, mean: i64) -> (p: usize)
        requires
            self.wf(),
        ensures
            p == locate(self@, mean as int),
    {
        let mut lo: usize = 0;
        let mut hi: usize = self.num_centroids();
        while lo < hi
            invariant
                0 <= lo <= hi <= self@.len(),
                forall|i: int| 0 <= i < lo ==> #[trigger] self@[i].mean < mean,
                forall|i: int| hi <= i < self@.len() ==> #[trigger] self@[i].mean >= mean,
            decreases hi - lo,
        {
            let mid = lo + (hi - lo) / 2;
            if self.centroid_at(mid).mean < mean {
                lo = mid + 1;
            } else {
                hi = mid;
            }
        }
        proof {
            lemma_locate_unique(self@, mean as int, lo as int);
        }
        lo
    }

    /// Estimates the quantile of `v`: the approximate fraction of merged
    /// samples at or below `v`, scaled by [`QUANTILE_SCALE`]. Returns 0
    /// for `v` at or below the least centroid mean (and on an empty
    /// digest), `QUANTILE_SCALE` above the greatest, and the exact
    /// floored interpolation of [`estimate_quantile_spec`] between.
    #[verifier::loop_isolation(false)]
    pub fn estimate_quantile(&self, v: i64) -> (q: u64)
        requires
            self.wf(),
        ensures
            q == estimate_quantile_spec(self@, v as int),
            q <= QUANTILE_SCALE,
    {
        let ghost s = self@;
        let p = self.search_centroids(v);
        proof {
            lemma_locate_props(s, v as int);
        }
        if p == 0 {
            return 0;
        }
        if p == self.num_centroids() {
            return QUANTILE_SCALE;
        }
        // Sum the weights through position `p - 1`, then the rest: one
        // pass yields both the left prefix and the total.
        let mut pw: u64 = 0;
        let mut i: usize = 0;
        while i < p
            invariant
                0 <= i <= p <= s.len(),
                pw == prefix_weight(s, i as int),
                pw <= MAX_TOTAL_WEIGHT,
            decreases p - i,
        {
            proof {
                lemma_prefix_weight_step(s, i as int);
                lemma_prefix_weight_monotonic(s, i as int + 1, s.len() as int);
                lemma_prefix_weight_full(s);
            }
            pw = pw + self.centroid_at(i).weight;
            i = i + 1;
        }
        let w = self.sample_count();
        proof {
            lemma_prefix_weight_monotonic(s, p as int + 1, s.len() as int);
            lemma_prefix_weight_full(s);
            lemma_prefix_weight_at_least_len(s, p as int);
            lemma_prefix_weight_step(s, p as int);
            lemma_prefix_weight_step(s, p as int - 1);
            assert(s.take(0) =~= Seq::<Centroid>::empty());
            assert(prefix_weight(s, 0) == 0);
            lemma_prefix_weight_monotonic(s, 0, p as int - 1);
        }
        let left = self.centroid_at(p - 1);
        let right = self.centroid_at(p);
        // locate puts v strictly above the left mean and at most the
        // right mean.
        assert(left.mean < v && v <= right.mean);
        let nl: u64 = 2 * pw - left.weight;
        let nr: u64 = 2 * pw + right.weight;
        let ghost num_mid = nl * (right.mean - v) + nr * (v - left.mean);
        let ghost den = 2 * (w as int) * (right.mean - left.mean);
        let dv_r: u128 = (right.mean as i128 - v as i128) as u128;
        let dv_l: u128 = (v as i128 - left.mean as i128) as u128;
        let dm: u128 = (right.mean as i128 - left.mean as i128) as u128;
        proof {
            assert(nl == centroid_quantile_num(s, p as int - 1));
            assert(nr == centroid_quantile_num(s, p as int));
            lemma_mul_upper_bound(nl as int, 2 * MAX_TOTAL_WEIGHT, dv_r as int, u64::MAX as int);
            lemma_mul_upper_bound(nr as int, 2 * MAX_TOTAL_WEIGHT, dv_l as int, u64::MAX as int);
            lemma_mul_upper_bound(
                2 * (w as int),
                2 * MAX_TOTAL_WEIGHT,
                dm as int,
                u64::MAX as int,
            );
            assert(nl <= 2 * (w as int) && nr <= 2 * (w as int));
            assert(num_mid <= 2 * (w as int) * (right.mean - left.mean)) by (nonlinear_arith)
                requires
                    nl <= 2 * (w as int),
                    nr <= 2 * (w as int),
                    num_mid == nl * (right.mean - v) + nr * (v - left.mean),
                    left.mean < v <= right.mean,
            ;
            assert(num_mid >= 0) by (nonlinear_arith)
                requires
                    num_mid == nl * (right.mean - v) + nr * (v - left.mean),
                    nl >= 0,
                    nr >= 0,
                    left.mean < v <= right.mean,
            ;
        }
        let num: u128 = (QUANTILE_SCALE as u128) * ((nl as u128) * dv_r + (nr as u128) * dv_l);
        let d: u128 = 2 * (w as u128) * dm;
        proof {
            assert(w >= 1 && dm >= 1);
            assert(2 * (w as int) * (dm as int) > 0) by (nonlinear_arith)
                requires
                    w >= 1,
                    dm >= 1,
            ;
        }
        let q128: u128 = num / d;
        proof {
            assert(num == QUANTILE_SCALE * num_mid);
            assert(d == den);
            assert(num <= QUANTILE_SCALE * den) by {
                lemma_mul_inequality(num_mid, den, QUANTILE_SCALE as int);
                assert(num_mid * QUANTILE_SCALE == QUANTILE_SCALE * num_mid) by (nonlinear_arith);
                assert(den * QUANTILE_SCALE == QUANTILE_SCALE * den) by (nonlinear_arith);
            }
            assert(q128 <= QUANTILE_SCALE) by {
                lemma_div_is_ordered(num as int, QUANTILE_SCALE * den, den);
                lemma_div_multiples_vanish(QUANTILE_SCALE as int, den);
            }
        }
        q128 as u64
    }

    /// Estimates the value at the fixed-point quantile `q`: the exact
    /// floored interpolation of [`estimate_value_spec`]. Returns the
    /// least centroid mean at quantile 0, the greatest at
    /// [`QUANTILE_SCALE`] and above, 0 on an empty digest, and otherwise
    /// a value between the least and greatest observed means. The scan
    /// for the rank's centroid runs from whichever end is closer, and
    /// both directions provably agree with the canonical left-to-right
    /// accumulation.
    #[verifier::loop_isolation(false)]
    #[verifier::rlimit(60)]
    pub fn estimate_value(&self, q: u64) -> (v: i64)
        requires
            self.wf(),
        ensures
            v == estimate_value_spec(self@, q as int),
            self@.len() == 0 ==> v == 0,
            self@.len() > 0 ==> self@[0].mean <= v <= self@[self@.len() - 1].mean,
            self@.len() > 0 && q == 0 ==> v == self@[0].mean,
            self@.len() > 0 && q >= QUANTILE_SCALE ==> v == self@[self@.len() - 1].mean,
    {
        let ghost s = self@;
        let n = self.num_centroids();
        if n == 0 {
            return 0;
        }
        if q == 0 {
            return self.centroid_at(0).mean;
        }
        if q >= QUANTILE_SCALE {
            return self.centroid_at(n - 1).mean;
        }
        let w = self.sample_count();
        proof {
            lemma_prefix_weight_at_least_len(s, s.len() as int);
            lemma_prefix_weight_full(s);
            assert(w >= 1);
            assert(s.take(0) =~= Seq::<Centroid>::empty());
            assert(prefix_weight(s, 0) == 0);
            lemma_mul_upper_bound(
                w as int,
                MAX_TOTAL_WEIGHT as int,
                q as int,
                QUANTILE_SCALE as int - 1,
            );
            assert((w as int) * (q as int) < QUANTILE_SCALE * (w as int)) by (nonlinear_arith)
                requires
                    1 <= q < QUANTILE_SCALE,
                    w >= 1,
            ;
            assert((w as int) * (q as int) >= 1) by (nonlinear_arith)
                requires
                    q >= 1,
                    w >= 1,
            ;
        }
        let wq: u64 = w * (q as u64);
        let ghost gwq = wq as int;
        let mut pos: usize = 0;
        let mut t: u64 = 0;
        let mut found = false;
        if q > QUANTILE_SCALE / 2 {
            // Scan from the right: high quantiles sit near the end.
            t = w;
            let mut k: usize = n;
            while k > 0 && !found
                invariant
                    !found ==> ({
                        &&& 1 <= k <= n
                        &&& t == prefix_weight(s, k as int)
                        &&& forall|j: int|
                            k <= j < n ==> gwq < QUANTILE_SCALE * #[trigger] prefix_weight(s, j)
                    }),
                    found ==> ({
                        &&& 0 <= pos < n
                        &&& t == prefix_weight(s, pos as int)
                        &&& QUANTILE_SCALE * prefix_weight(s, pos as int) <= gwq
                        &&& gwq < QUANTILE_SCALE * prefix_weight(s, pos as int + 1)
                    }),
                decreases k + (if found { 0int } else { 1int }),
            {
                proof {
                    lemma_prefix_weight_step(s, k as int - 1);
                    lemma_prefix_weight_monotonic(s, 0, k as int - 1);
                    lemma_prefix_weight_monotonic(s, k as int - 1, s.len() as int);
                    lemma_prefix_weight_full(s);
                }
                t = t - self.centroid_at(k - 1).weight;
                if wq >= QUANTILE_SCALE * t {
                    pos = k - 1;
                    found = true;
                    proof {
                        if pos as int + 1 < n {
                            assert(gwq < QUANTILE_SCALE * prefix_weight(s, pos as int + 1));
                        } else {
                            assert(pos as int + 1 == n as int);
                        }
                    }
                } else {
                    k = k - 1;
                    proof {
                        if k == 0 {
                            assert(gwq < QUANTILE_SCALE * prefix_weight(s, 0));
                            assert(false);
                        }
                    }
                }
            }
        } else {
            // Scan from the left: low quantiles sit near the start.
            pos = n - 1;
            let mut k: usize = 0;
            while k < n && !found
                invariant
                    !found ==> ({
                        &&& 0 <= k < n
                        &&& t == prefix_weight(s, k as int)
                        &&& forall|j: int|
                            1 <= j <= k ==> gwq >= QUANTILE_SCALE * #[trigger] prefix_weight(
                                s,
                                j,
                            )
                    }),
                    found ==> ({
                        &&& 0 <= pos < n
                        &&& t == prefix_weight(s, pos as int)
                        &&& QUANTILE_SCALE * prefix_weight(s, pos as int) <= gwq
                        &&& gwq < QUANTILE_SCALE * prefix_weight(s, pos as int + 1)
                    }),
                decreases (n - k) + (if found { 0int } else { 1int }),
            {
                proof {
                    lemma_prefix_weight_step(s, k as int);
                    lemma_prefix_weight_monotonic(s, k as int + 1, s.len() as int);
                }
                let cw = self.centroid_at(k).weight;
                if wq < QUANTILE_SCALE * (t + cw) {
                    pos = k;
                    found = true;
                    proof {
                        if k > 0 {
                            assert(gwq >= QUANTILE_SCALE * prefix_weight(s, k as int));
                        }
                    }
                } else {
                    proof {
                        if k == n - 1 {
                            assert(gwq >= QUANTILE_SCALE * prefix_weight(s, s.len() as int));
                            assert(false);
                        }
                    }
                    t = t + cw;
                    k = k + 1;
                }
            }
        }
        proof {
            assert(found);
            lemma_value_pos_unique(s, gwq, pos as int);
            lemma_prefix_weight_step(s, pos as int);
            lemma_prefix_weight_monotonic(s, 0, pos as int);
            lemma_prefix_weight_monotonic(s, pos as int + 1, s.len() as int);
            lemma_prefix_weight_full(s);
            assert(s[pos as int].weight <= MAX_TOTAL_WEIGHT);
        }
        let c = self.centroid_at(pos);
        let minv: i64;
        let maxv: i64;
        let span2: u128;
        if n == 1 {
            minv = c.mean;
            maxv = c.mean;
            span2 = 0;
        } else if pos == 0 {
            let m1 = self.centroid_at(1).mean;
            minv = c.mean;
            maxv = m1;
            span2 = 2 * ((m1 as i128 - c.mean as i128) as u128);
        } else if pos == n - 1 {
            let ml = self.centroid_at(pos - 1).mean;
            minv = ml;
            maxv = c.mean;
            span2 = 2 * ((c.mean as i128 - ml as i128) as u128);
        } else {
            let ml = self.centroid_at(pos - 1).mean;
            let mr = self.centroid_at(pos + 1).mean;
            minv = ml;
            maxv = mr;
            span2 = (mr as i128 - ml as i128) as u128;
        }
        proof {
            assert(span2 == span_twice(s, pos as int));
            assert(minv == clamp_lo(s, pos as int));
            assert(maxv == clamp_hi(s, pos as int));
            assert(minv <= maxv);
            assert(s[0].mean <= minv && maxv <= s[s.len() - 1].mean);
            assert(span2 <= 2 * (u64::MAX as int));
        }
        let st: u64 = QUANTILE_SCALE * t;
        let sw: u64 = QUANTILE_SCALE * c.weight;
        let num2: i128 = 2 * (wq as i128 - st as i128) - sw as i128;
        let den: u128 = 4 * (sw as u128);
        let ghost bound: int = 4 * (MAX_TOTAL_WEIGHT as int) * (QUANTILE_SCALE as int);
        proof {
            assert(wq <= MAX_TOTAL_WEIGHT * QUANTILE_SCALE);
            assert(st <= MAX_TOTAL_WEIGHT * QUANTILE_SCALE);
            assert(sw <= MAX_TOTAL_WEIGHT * QUANTILE_SCALE);
            assert(-bound <= num2 <= bound);
        }
        let mag: u128 = if num2 >= 0 {
            num2 as u128
        } else {
            (-num2) as u128
        };
        proof {
            lemma_mul_upper_bound(mag as int, bound, span2 as int, 2 * (u64::MAX as int));
        }
        let prod: u128 = mag * span2;
        let adj: u128 = prod / den;
        proof {
            lemma_div_is_ordered_by_denominator(prod as int, 1, den as int);
            assert(adj <= prod);
        }
        let val: i128 = if num2 >= 0 {
            c.mean as i128 + adj as i128
        } else {
            c.mean as i128 - adj as i128
        };
        proof {
            if num2 >= 0 {
                assert(adj == signed_scaled_div(num2 as int, span2 as int, den as int));
            } else {
                assert(-(adj as int) == signed_scaled_div(num2 as int, span2 as int, den as int));
            }
        }
        let v: i64 = if val < minv as i128 {
            minv
        } else if val > maxv as i128 {
            maxv
        } else {
            val as i64
        };
        proof {
            let gq = q as int;
            let gpos = pos as int;
            assert(total_weight(s) * gq == gwq);
            assert(gpos == value_pos(s, total_weight(s) * gq));
            let gnum2 = 2 * (gwq - QUANTILE_SCALE * prefix_weight(s, gpos)) - QUANTILE_SCALE * s[
                gpos
            ].weight;
            assert(num2 == gnum2);
            assert(den == 4 * QUANTILE_SCALE * s[gpos].weight) by (nonlinear_arith)
                requires
                    den == 4 * (sw as int),
                    sw == QUANTILE_SCALE * s[gpos].weight,
            ;
            let gadj = signed_scaled_div(gnum2, span_twice(s, gpos), den as int);
            assert(val == s[gpos].mean + gadj);
            assert(v == clamp(s[gpos].mean + gadj, clamp_lo(s, gpos), clamp_hi(s, gpos)));
            assert(v == estimate_value_spec(s, gq));
        }
        v
    }
}

} // verus!
