//! Sorting of raw sample batches.
//!
//! A batch of samples is a sequence of `i64` values. Its sorted form is
//! canonical — equal values are indistinguishable, so any two sorted
//! sequences with the same multiset of values are equal — which is what
//! lets the unsorted and pre-sorted ingestion paths be proved to agree.

use vstd::prelude::*;

use vstd::multiset::Multiset;
use vstd::relations::{sorted_by, total_ordering};
use vstd::seq_lib::lemma_multiset_commutative;
use vstd::seq_lib::lemma_sorted_unique;

verus! {

/// The order the digest sorts samples by.
pub open spec fn value_leq() -> spec_fn(i64, i64) -> bool {
    |a: i64, b: i64| a <= b
}

/// The batch is ascending.
pub open spec fn sorted_values(vs: Seq<i64>) -> bool {
    forall|i: int, j: int| 0 <= i < j < vs.len() ==> vs[i] <= vs[j]
}

/// The canonical sorted form of a batch.
pub open spec fn sorted_values_of(vs: Seq<i64>) -> Seq<i64> {
    vs.sort_by(value_leq())
}

pub proof fn lemma_value_leq_total_ordering()
    ensures
        total_ordering(value_leq()),
{
}

pub proof fn lemma_sorted_values_is_sorted_by(vs: Seq<i64>)
    ensures
        sorted_values(vs) <==> sorted_by(vs, value_leq()),
{
    let leq = value_leq();
    if sorted_values(vs) {
        assert forall|i: int, j: int| 0 <= i < j < vs.len() implies #[trigger] leq(
            vs[i],
            vs[j],
        ) by {
            assert(vs[i] <= vs[j]);
        }
    }
    if sorted_by(vs, leq) {
        assert forall|i: int, j: int| 0 <= i < j < vs.len() implies vs[i] <= vs[j] by {
            assert(leq(vs[i], vs[j]));
        }
    }
}

/// What the canonical sorted form satisfies: same multiset, ascending.
pub proof fn lemma_sorted_values_of_ensures(vs: Seq<i64>)
    ensures
        sorted_values_of(vs).to_multiset() == vs.to_multiset(),
        sorted_values(sorted_values_of(vs)),
        sorted_values_of(vs).len() == vs.len(),
{
    lemma_value_leq_total_ordering();
    vs.lemma_sort_by_ensures(value_leq());
    lemma_sorted_values_is_sorted_by(sorted_values_of(vs));
    broadcast use vstd::seq_lib::group_to_multiset_ensures;

    assert(vs.to_multiset().len() == vs.len());
    assert(sorted_values_of(vs).to_multiset().len() == sorted_values_of(vs).len());
}

/// Any ascending sequence with the same values as `vs` is its canonical
/// sorted form.
pub proof fn lemma_sorted_values_unique(vs: Seq<i64>, s: Seq<i64>)
    requires
        sorted_values(s),
        s.to_multiset() == vs.to_multiset(),
    ensures
        s == sorted_values_of(vs),
{
    lemma_value_leq_total_ordering();
    lemma_sorted_values_of_ensures(vs);
    lemma_sorted_values_is_sorted_by(s);
    lemma_sorted_values_is_sorted_by(sorted_values_of(vs));
    lemma_sorted_unique(s, sorted_values_of(vs), value_leq());
}

/// A sequence whose adjacent pairs are ascending is ascending throughout.
pub proof fn lemma_adjacent_implies_sorted(vs: Seq<i64>)
    requires
        forall|k: int| 0 < k < vs.len() ==> vs[k - 1] <= #[trigger] vs[k],
    ensures
        sorted_values(vs),
{
    assert forall|i: int, j: int| 0 <= i < j < vs.len() implies vs[i] <= vs[j] by {
        lemma_chain_le(vs, i, j);
    }
}

proof fn lemma_chain_le(vs: Seq<i64>, i: int, j: int)
    requires
        forall|k: int| 0 < k < vs.len() ==> vs[k - 1] <= #[trigger] vs[k],
        0 <= i <= j < vs.len(),
    ensures
        vs[i] <= vs[j],
    decreases j - i,
{
    if i < j {
        lemma_chain_le(vs, i, j - 1);
    }
}

/// Inserting an element anywhere adds exactly it to the sequence's
/// multiset.
proof fn lemma_insert_to_multiset(s: Seq<i64>, i: int, a: i64)
    requires
        0 <= i <= s.len(),
    ensures
        s.insert(i, a).to_multiset() == s.to_multiset().insert(a),
{
    broadcast use vstd::seq_lib::group_to_multiset_ensures;
    broadcast use vstd::multiset::group_multiset_axioms;

    let singleton = seq![a];
    assert(singleton =~= Seq::<i64>::empty().push(a));
    assert(Seq::<i64>::empty().to_multiset() =~= Multiset::<i64>::empty());
    assert(singleton.to_multiset() =~= Multiset::<i64>::empty().insert(a));
    assert(s.insert(i, a) =~= s.take(i) + (singleton + s.skip(i)));
    lemma_multiset_commutative(singleton, s.skip(i));
    lemma_multiset_commutative(s.take(i), singleton + s.skip(i));
    assert(s =~= s.take(i) + s.skip(i));
    lemma_multiset_commutative(s.take(i), s.skip(i));
    assert(s.insert(i, a).to_multiset() =~= s.to_multiset().insert(a));
}

/// Sorts a batch of samples in place, into its canonical ascending form.
#[verifier::loop_isolation(false)]
pub(crate) fn sort_values(values: &mut Vec<i64>)
    ensures
        final(values)@ == sorted_values_of(old(values)@),
        sorted_values(final(values)@),
        final(values)@.len() == old(values)@.len(),
        final(values)@.to_multiset() == old(values)@.to_multiset(),
{
    broadcast use vstd::seq_lib::group_to_multiset_ensures;
    broadcast use vstd::multiset::group_multiset_axioms;

    if values.len() == 0 {
        proof {
            lemma_sorted_values_unique(old(values)@, values@);
        }
        return ;
    }
    let mut i: usize = 1;
    while i < values.len()
        invariant
            1 <= i <= values.len(),
            values@.len() == old(values)@.len(),
            values@.to_multiset() == old(values)@.to_multiset(),
            forall|p: int, q: int|
                0 <= p < q < i ==> #[trigger] values@[p] <= #[trigger] values@[q],
        decreases values.len() - i,
    {
        let x = values[i];
        let ghost before = values@;
        let mut pos: usize = 0;
        while pos < i && values[pos] <= x
            invariant
                0 <= pos <= i,
                values@ == before,
                forall|k: int| 0 <= k < pos ==> #[trigger] before[k] <= x,
            decreases i - pos,
        {
            pos = pos + 1;
        }
        // `pos` is the first slot in the sorted prefix holding a value
        // greater than `x`; move `x` there.
        values.remove(i);
        values.insert(pos, x);
        proof {
            assert(before.remove(i as int).to_multiset() == before.to_multiset().remove(
                before[i as int],
            ));
            lemma_insert_to_multiset(before.remove(i as int), pos as int, x);
            assert(before.to_multiset().contains(x));
            assert(before.to_multiset().remove(x).insert(x) =~= before.to_multiset());
            assert(forall|k: int| 0 <= k < pos ==> values@[k] == before[k]);
            assert(values@[pos as int] == x);
            assert(forall|k: int| pos < k <= i ==> values@[k] == #[trigger] before[k - 1]);
            assert forall|p: int, q: int|
                0 <= p < q < i + 1 implies #[trigger] values@[p] <= #[trigger] values@[q] by {
                if q < pos {
                } else if q == pos {
                    assert(before[p] <= x);
                } else {
                    assert(values@[q] == before[q - 1]);
                    assert(pos <= q - 1 < i);
                    if p < pos {
                        if p < q - 1 {
                            assert(before[p] <= before[q - 1]);
                        }
                        if pos < i {
                            assert(x < before[pos as int]);
                        }
                    } else if p == pos {
                        assert(pos < i);
                        assert(x < before[pos as int]);
                        assert(before[pos as int] <= before[q - 1]);
                    } else {
                        assert(values@[p] == before[p - 1]);
                        assert(before[p - 1] <= before[q - 1]);
                    }
                }
            }
        }
        i = i + 1;
    }
    proof {
        lemma_sorted_values_unique(old(values)@, values@);
    }
}

} // verus!
