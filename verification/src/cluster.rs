//! The compression engine: a single left-to-right sweep that groups a
//! sorted centroid sequence into at most `delta` clusters, guided by the
//! scale function.
//!
//! The sweep keeps a current cluster and a compression index `k`. A
//! centroid is absorbed into the current cluster while the cumulative
//! quantile through it stays within the scale limit for `k`; otherwise the
//! current cluster is emitted, `k` advances by exactly one whole unit, and
//! a new cluster starts. Advancing `k` by whole units is what bounds the
//! number of emitted clusters by `delta`.

use vstd::prelude::*;

use crate::centroid::{lemma_merged_centroid_bounds, merged_centroid, Centroid};
use crate::model::{
    lemma_total_weight_concat, lemma_total_weight_drop_first, lemma_total_weight_nonneg,
    lemma_prefix_weight_full, lemma_prefix_weight_monotonic, lemma_prefix_weight_step,
    prefix_weight, sorted_by_mean, total_weight, weights_positive, MAX_TOTAL_WEIGHT,
};
use crate::scale::{check_scale_limit, lemma_scale_limit_saturates, within_scale_limit};

verus! {

/// The clusters that the sweep still produces, given the centroids not yet
/// visited (`rest`), the cluster being accumulated (`cur`), the active
/// compression index `k`, and the weight already emitted. `w` is the total
/// weight of the whole sequence and `delta` the compression parameter; the
/// cumulative quantile through the next centroid is
/// `(emitted + cur.weight + rest[0].weight) / w`.
pub open spec fn cluster_rest(
    rest: Seq<Centroid>,
    w: int,
    delta: int,
    cur: Centroid,
    k: int,
    emitted: int,
) -> Seq<Centroid>
    decreases rest.len(),
{
    if rest.len() == 0 {
        seq![cur]
    } else if within_scale_limit(emitted + cur.weight + rest[0].weight, w, k, delta) {
        cluster_rest(rest.drop_first(), w, delta, merged_centroid(cur, rest[0]), k, emitted)
    } else {
        seq![cur] + cluster_rest(
            rest.drop_first(),
            w,
            delta,
            rest[0],
            k + 1,
            emitted + cur.weight,
        )
    }
}

/// The centroid sequence that one clustering pass leaves behind.
pub open spec fn cluster_spec(s: Seq<Centroid>, delta: int) -> Seq<Centroid> {
    if s.len() == 0 {
        Seq::<Centroid>::empty()
    } else {
        cluster_rest(s.drop_first(), total_weight(s), delta, s[0], 1, 0)
    }
}

/// What the sweep guarantees, proved by induction over the unvisited
/// suffix: it conserves total weight, emits at most `delta - k + 1`
/// clusters, keeps the sequence sorted with positive weights, and keeps
/// every mean inside the range the input spanned.
pub proof fn lemma_cluster_rest_props(
    rest: Seq<Centroid>,
    w: int,
    delta: int,
    cur: Centroid,
    k: int,
    emitted: int,
)
    requires
        sorted_by_mean(rest),
        weights_positive(rest),
        cur.weight >= 1,
        rest.len() > 0 ==> cur.mean <= rest[0].mean,
        emitted >= 0,
        emitted + cur.weight + total_weight(rest) == w,
        w <= MAX_TOTAL_WEIGHT,
        1 <= k <= delta,
    ensures
        cluster_rest(rest, w, delta, cur, k, emitted).len() >= 1,
        cluster_rest(rest, w, delta, cur, k, emitted).len() <= delta - k + 1,
        total_weight(cluster_rest(rest, w, delta, cur, k, emitted)) == cur.weight + total_weight(
            rest,
        ),
        sorted_by_mean(cluster_rest(rest, w, delta, cur, k, emitted)),
        weights_positive(cluster_rest(rest, w, delta, cur, k, emitted)),
        cluster_rest(rest, w, delta, cur, k, emitted)[0].mean >= cur.mean,
        cluster_rest(rest, w, delta, cur, k, emitted).last().mean <= if rest.len() == 0 {
            cur.mean
        } else {
            rest.last().mean
        },
    decreases rest.len(),
{
    lemma_total_weight_nonneg(rest);
    let out = cluster_rest(rest, w, delta, cur, k, emitted);
    if rest.len() == 0 {
        assert(out =~= seq![cur]);
        crate::model::lemma_total_weight_singleton(cur);
        assert(total_weight(out) == cur.weight);
    } else {
        let next = rest[0];
        lemma_total_weight_drop_first(rest);
        lemma_total_weight_nonneg(rest.drop_first());
        assert(rest.drop_first().len() > 0 ==> rest.drop_first()[0] == rest[1]);
        assert(rest.drop_first().len() > 0 ==> rest.drop_first().last() == rest.last());
        if within_scale_limit(emitted + cur.weight + next.weight, w, k, delta) {
            lemma_merged_centroid_bounds(cur, next);
            let merged = merged_centroid(cur, next);
            lemma_cluster_rest_props(rest.drop_first(), w, delta, merged, k, emitted);
            assert(out == cluster_rest(rest.drop_first(), w, delta, merged, k, emitted));
        } else {
            // The scale limit saturates at `k == delta`, so a group can
            // only close while `k < delta`.
            assert(k < delta) by {
                if k == delta {
                    lemma_scale_limit_saturates(emitted + cur.weight + next.weight, w, delta);
                }
            }
            let tail = cluster_rest(
                rest.drop_first(),
                w,
                delta,
                next,
                k + 1,
                emitted + cur.weight,
            );
            lemma_cluster_rest_props(
                rest.drop_first(),
                w,
                delta,
                next,
                k + 1,
                emitted + cur.weight,
            );
            assert(out == seq![cur] + tail);
            lemma_total_weight_concat(seq![cur], tail);
            crate::model::lemma_total_weight_singleton(cur);
            assert(total_weight(seq![cur]) == cur.weight);
            assert(out[0] == cur);
            assert(forall|i: int| 0 <= i < tail.len() ==> out[i + 1] == tail[i]);
            assert(out.last() == tail.last());
            assert(sorted_by_mean(out)) by {
                assert(forall|i: int, j: int|
                    0 <= i < j < out.len() && i >= 1 ==> #[trigger] out[i].mean
                        <= #[trigger] out[j].mean);
                assert(forall|j: int| 1 <= j < out.len() ==> out[j].mean >= tail[0].mean);
            }
        }
    }
}

/// One clustering pass over a sorted sequence: conserves total weight,
/// leaves at most `delta` centroids, keeps the order invariant, and stays
/// inside the observed mean range.
pub proof fn lemma_cluster_spec_props(s: Seq<Centroid>, delta: int)
    requires
        sorted_by_mean(s),
        weights_positive(s),
        total_weight(s) <= MAX_TOTAL_WEIGHT,
        1 <= delta,
    ensures
        total_weight(cluster_spec(s, delta)) == total_weight(s),
        cluster_spec(s, delta).len() <= delta,
        s.len() == 0 <==> cluster_spec(s, delta).len() == 0,
        sorted_by_mean(cluster_spec(s, delta)),
        weights_positive(cluster_spec(s, delta)),
        s.len() > 0 ==> cluster_spec(s, delta)[0].mean >= s[0].mean,
        s.len() > 0 ==> cluster_spec(s, delta).last().mean <= s.last().mean,
{
    if s.len() > 0 {
        lemma_total_weight_drop_first(s);
        assert(s.drop_first().len() > 0 ==> s.drop_first()[0] == s[1]);
        lemma_cluster_rest_props(s.drop_first(), total_weight(s), delta, s[0], 1, 0);
        assert(s.drop_first().len() > 0 ==> s.drop_first().last() == s.last());
        assert(s.drop_first().len() == 0 ==> s[0] == s.last());
    }
}

/// One clustering pass: replaces a sorted centroid sequence by its
/// compressed form.
#[verifier::loop_isolation(false)]
pub(crate) fn cluster_centroids(cs: &Vec<Centroid>, delta: u32) -> (out: Vec<Centroid>)
    requires
        sorted_by_mean(cs@),
        weights_positive(cs@),
        total_weight(cs@) <= MAX_TOTAL_WEIGHT,
        1 <= delta,
    ensures
        out@ == cluster_spec(cs@, delta as int),
{
    let ghost gdelta: int = delta as int;
    let mut out: Vec<Centroid> = Vec::new();
    if cs.len() == 0 {
        assert(out@ =~= cluster_spec(cs@, gdelta));
        return out;
    }
    // Total weight of the store: the denominator of every cumulative
    // quantile the sweep compares against the scale limit.
    let mut weight_sum: u64 = 0;
    let mut j: usize = 0;
    while j < cs.len()
        invariant
            0 <= j <= cs.len(),
            weight_sum == prefix_weight(cs@, j as int),
            weights_positive(cs@),
            total_weight(cs@) <= MAX_TOTAL_WEIGHT,
            weight_sum <= MAX_TOTAL_WEIGHT,
        decreases cs.len() - j,
    {
        proof {
            lemma_prefix_weight_step(cs@, j as int);
            lemma_prefix_weight_monotonic(cs@, j as int + 1, cs@.len() as int);
            lemma_prefix_weight_full(cs@);
        }
        weight_sum = weight_sum + cs[j].weight;
        j = j + 1;
    }
    proof {
        lemma_prefix_weight_full(cs@);
    }
    let ghost w: int = weight_sum as int;

    let mut k: u32 = 1;
    let mut emitted: u64 = 0;
    let mut cur: Centroid = cs[0];
    let mut i: usize = 1;
    proof {
        lemma_total_weight_drop_first(cs@);
        assert(cs@.skip(1) =~= cs@.drop_first());
    }
    while i < cs.len()
        invariant
            1 <= i <= cs.len(),
            1 <= k <= delta,
            sorted_by_mean(cs@),
            weights_positive(cs@),
            w == total_weight(cs@) <= MAX_TOTAL_WEIGHT,
            weight_sum == w,
            cur.weight >= 1,
            emitted + cur.weight + total_weight(cs@.skip(i as int)) == w,
            i < cs.len() ==> cur.mean <= cs@[i as int].mean,
            cluster_spec(cs@, gdelta) == out@ + cluster_rest(
                cs@.skip(i as int),
                w,
                gdelta,
                cur,
                k as int,
                emitted as int,
            ),
        decreases cs.len() - i,
    {
        let ghost rest = cs@.skip(i as int);
        proof {
            assert(rest.len() > 0);
            assert(rest[0] == cs@[i as int]);
            lemma_total_weight_drop_first(rest);
            lemma_total_weight_nonneg(rest.drop_first());
            assert(rest.drop_first() =~= cs@.skip(i as int + 1));
        }
        let next = cs[i];
        let within = check_scale_limit(emitted + cur.weight + next.weight, weight_sum, k, delta);
        if within {
            proof {
                lemma_merged_centroid_bounds(cur, next);
            }
            cur.merge(&next);
        } else {
            proof {
                assert(k < delta) by {
                    if k == delta {
                        lemma_scale_limit_saturates(
                            emitted + cur.weight + next.weight,
                            w,
                            gdelta,
                        );
                    }
                }
            }
            let ghost prev_out = out@;
            let ghost prev_cur = cur;
            out.push(cur);
            emitted = emitted + cur.weight;
            k = k + 1;
            cur = next;
            proof {
                assert(prev_out + (seq![prev_cur] + cluster_rest(
                    rest.drop_first(),
                    w,
                    gdelta,
                    cur,
                    k as int,
                    emitted as int,
                )) =~= out@ + cluster_rest(
                    rest.drop_first(),
                    w,
                    gdelta,
                    cur,
                    k as int,
                    emitted as int,
                ));
            }
        }
        i = i + 1;
    }
    proof {
        assert(cs@.skip(i as int).len() == 0);
        assert(cluster_rest(cs@.skip(i as int), w, gdelta, cur, k as int, emitted as int)
            =~= seq![cur]);
    }
    out.push(cur);
    out
}

} // verus!
