//! The scale function that allocates accuracy across quantile space.
//!
//! For a compression index `k` and compression parameter `delta`, the
//! largest cumulative quantile a cluster with index `k` may reach is, with
//! `ratio = k / delta`:
//!
//! ```text
//! q_limit = 1 - 2 * (1 - ratio)^2   if ratio >= 1/2
//!         = 2 * ratio^2             otherwise
//! ```
//!
//! The limit is monotone in `k`, symmetric about the median, and tightest
//! near the tails, which is where quantile queries need the most
//! resolution. It reaches 1 at `k == delta`, so a clustering pass can open
//! at most `delta` groups.
//!
//! Everything here is exact rational arithmetic: `q_limit` is the fraction
//! `inverse_scale_num(k, delta) / delta^2`, and the only question the
//! clustering pass ever asks — is the quantile `a / w` within the limit? —
//! is decided by cross-multiplication.

use vstd::prelude::*;

verus! {

use vstd::arithmetic::mul::lemma_mul_upper_bound;

/// Numerator of the scale limit for compression index `k`: `q_limit ==
/// inverse_scale_num(k, delta) / delta^2`.
pub open spec fn inverse_scale_num(k: int, delta: int) -> int {
    if 2 * k >= delta {
        delta * delta - 2 * ((delta - k) * (delta - k))
    } else {
        2 * (k * k)
    }
}

/// Whether the cumulative quantile `a / w` is within the scale limit for
/// compression index `k`, i.e. `a / w <= q_limit(k, delta)`,
/// cross-multiplied to stay in the integers.
pub open spec fn within_scale_limit(a: int, w: int, k: int, delta: int) -> bool {
    a * (delta * delta) <= w * inverse_scale_num(k, delta)
}

/// At `k == delta` the scale limit is exactly 1, so any cumulative weight
/// not exceeding the total is within it: a clustering pass never opens a
/// group beyond index `delta`.
pub proof fn lemma_scale_limit_saturates(a: int, w: int, delta: int)
    requires
        1 <= delta,
        0 <= a <= w,
    ensures
        within_scale_limit(a, w, delta, delta),
{
    assert(inverse_scale_num(delta, delta) == delta * delta);
    assert(a * (delta * delta) <= w * (delta * delta)) by (nonlinear_arith)
        requires
            a <= w,
            delta >= 1,
    ;
}

/// Decides `a / w <= q_limit(k, delta)` exactly.
pub fn check_scale_limit(a: u64, w: u64, k: u32, delta: u32) -> (r: bool)
    requires
        1 <= k <= delta,
        a <= u32::MAX,
        w <= u32::MAX,
    ensures
        r == within_scale_limit(a as int, w as int, k as int, delta as int),
{
    let d: u128 = delta as u128;
    let kk: u128 = k as u128;
    proof {
        lemma_mul_upper_bound(d as int, u32::MAX as int, d as int, u32::MAX as int);
    }
    let d2: u128 = d * d;
    let num: u128 = if 2 * kk >= d {
        let e: u128 = d - kk;
        proof {
            assert(2 * (e * e) <= d * d) by (nonlinear_arith)
                requires
                    1 <= kk <= d,
                    2 * kk >= d,
                    e == d - kk,
            ;
        }
        d2 - 2 * (e * e)
    } else {
        proof {
            assert(2 * (kk * kk) <= d * d) by (nonlinear_arith)
                requires
                    1 <= kk,
                    2 * kk < d,
            ;
        }
        2 * (kk * kk)
    };
    assert(num == inverse_scale_num(k as int, delta as int));
    proof {
        lemma_mul_upper_bound(a as int, u32::MAX as int, d2 as int, u64::MAX as int);
        lemma_mul_upper_bound(w as int, u32::MAX as int, num as int, u64::MAX as int);
    }
    (a as u128) * d2 <= (w as u128) * num
}

} // verus!
