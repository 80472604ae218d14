//! Sets of samples: what it means for them to be finite and to ascend, and
//! how they are sorted.

use crate::double::Double;
use vstd::prelude::*;
use vstd::seq_lib::lemma_multiset_commutative;

verus! {

/// Whether a sequence ascends in the total order.
pub open spec fn sorted(s: Seq<Double>) -> bool {
    forall|i: int, j: int| 0 <= i <= j < s.len() ==> s[i].total_order() <= s[j].total_order()
}

/// Whether every value of a sequence is finite.
pub open spec fn all_finite(s: Seq<Double>) -> bool {
    forall|i: int| 0 <= i < s.len() ==> (#[trigger] s[i]).is_finite()
}

/// Whether every value of a sequence is greater than zero.
pub open spec fn all_positive(s: Seq<Double>) -> bool {
    forall|i: int| 0 <= i < s.len() ==> Double::zero().lt(#[trigger] s[i])
}

/// Whether `least` is one of the samples and none of them is smaller.
pub open spec fn is_minimum(least: Double, samples: Seq<Double>) -> bool {
    samples.contains(least) && forall|i: int|
        0 <= i < samples.len() ==> least.le(#[trigger] samples[i])
}

/// Whether `greatest` is one of the samples and none of them is greater.
pub open spec fn is_maximum(greatest: Double, samples: Seq<Double>) -> bool {
    samples.contains(greatest) && forall|i: int|
        0 <= i < samples.len() ==> (#[trigger] samples[i]).le(greatest)
}

/// Decides whether samples are finite and ascend.
pub fn check_samples(data: &[Double]) -> (r: bool)
    ensures
        r == (sorted(data@) && all_finite(data@)),
{
    let mut i: usize = 0;
    while i < data.len()
        invariant
            i <= data.len(),
            forall|k: int| 0 <= k < i ==> (#[trigger] data@[k]).is_finite(),
            forall|k: int|
                0 < k < i ==> (#[trigger] data@[k - 1]).total_order() <= data@[k].total_order(),
        decreases data.len() - i,
    {
        if !data[i].is_finite() {
            return false;
        }
        if i > 0 && data[i - 1].total_key() > data[i].total_key() {
            return false;
        }
        i += 1;
    }
    proof {
        lemma_steps_ascend(data@);
    }
    true
}

/// A sequence ascends as soon as each value is at least the one before it.
proof fn lemma_steps_ascend(s: Seq<Double>)
    requires
        forall|k: int| 0 < k < s.len() ==> (#[trigger] s[k - 1]).total_order() <= s[k].total_order(),
    ensures
        sorted(s),
{
    assert forall|i: int, j: int| 0 <= i <= j < s.len() implies s[i].total_order()
        <= s[j].total_order() by {
        lemma_steps_reach(s, i, j);
    }
}

proof fn lemma_steps_reach(s: Seq<Double>, i: int, j: int)
    requires
        forall|k: int| 0 < k < s.len() ==> (#[trigger] s[k - 1]).total_order() <= s[k].total_order(),
        0 <= i <= j < s.len(),
    ensures
        s[i].total_order() <= s[j].total_order(),
    decreases j - i,
{
    if i < j {
        lemma_steps_reach(s, i, j - 1);
    }
}

/// Keeps the values that are finite, in their order. Infinities and values
/// that are no numbers are no samples.
pub fn finite_samples(values: &[Double]) -> (samples: Vec<Double>)
    ensures
        samples@ == values@.filter(|d: Double| d.is_finite()),
        all_finite(samples@),
{
    let ghost finite = |d: Double| d.is_finite();
    let mut samples: Vec<Double> = Vec::new();
    let mut i: usize = 0;
    proof {
        reveal(Seq::filter);
    }
    while i < values.len()
        invariant
            i <= values.len(),
            finite == |d: Double| d.is_finite(),
            samples@ == values@.take(i as int).filter(finite),
            all_finite(samples@),
        decreases values.len() - i,
    {
        let value: Double = values[i];
        proof {
            reveal(Seq::filter);
            assert(values@.take(i + 1).drop_last() =~= values@.take(i as int));
        }
        if value.is_finite() {
            samples.push(value);
        }
        i += 1;
    }
    proof {
        assert(values@.take(i as int) =~= values@);
    }
    samples
}

/// Merges two ascending vectors into one.
fn merge(left: &Vec<Double>, right: &Vec<Double>) -> (out: Vec<Double>)
    requires
        sorted(left@),
        sorted(right@),
        left.len() + right.len() <= usize::MAX,
    ensures
        sorted(out@),
        out@.to_multiset() == left@.to_multiset().add(right@.to_multiset()),
        out.len() == left.len() + right.len(),
{
    let mut out: Vec<Double> = Vec::new();
    let mut i: usize = 0;
    let mut j: usize = 0;
    proof {
        broadcast use vstd::seq_lib::group_to_multiset_ensures;
        broadcast use vstd::multiset::group_multiset_axioms;

        assert(out@.to_multiset() =~= left@.take(0).to_multiset().add(
            right@.take(0).to_multiset(),
        ));
    }
    while i < left.len() || j < right.len()
        invariant
            i <= left.len(),
            j <= right.len(),
            out.len() == i + j,
            sorted(left@),
            sorted(right@),
            sorted(out@),
            out@.to_multiset() == left@.take(i as int).to_multiset().add(
                right@.take(j as int).to_multiset(),
            ),
            forall|a: int, b: int|
                0 <= a < out.len() && i <= b < left.len() ==> out@[a].total_order()
                    <= left@[b].total_order(),
            forall|a: int, b: int|
                0 <= a < out.len() && j <= b < right.len() ==> out@[a].total_order()
                    <= right@[b].total_order(),
        decreases left.len() - i + (right.len() - j),
    {
        let ghost before = out@;
        let take_left: bool = if i >= left.len() {
            false
        } else if j >= right.len() {
            true
        } else {
            left[i].total_key() <= right[j].total_key()
        };
        if take_left {
            out.push(left[i]);
            proof {
                assert(left@.take(i + 1) =~= left@.take(i as int).push(left@[i as int]));
                vstd::seq_lib::to_multiset_build(left@.take(i as int), left@[i as int]);
                vstd::seq_lib::to_multiset_build(before, left@[i as int]);
                assert(out@.to_multiset() =~= left@.take(i + 1).to_multiset().add(
                    right@.take(j as int).to_multiset(),
                ));
            }
            i += 1;
        } else {
            out.push(right[j]);
            proof {
                assert(right@.take(j + 1) =~= right@.take(j as int).push(right@[j as int]));
                vstd::seq_lib::to_multiset_build(right@.take(j as int), right@[j as int]);
                vstd::seq_lib::to_multiset_build(before, right@[j as int]);
                assert(out@.to_multiset() =~= left@.take(i as int).to_multiset().add(
                    right@.take(j + 1).to_multiset(),
                ));
            }
            j += 1;
        }
    }
    proof {
        assert(left@.take(i as int) =~= left@);
        assert(right@.take(j as int) =~= right@);
    }
    out
}

/// Sorts the values of `data` from `lo` to `hi` into a vector of their own.
fn sort_range(data: &Vec<Double>, lo: usize, hi: usize) -> (out: Vec<Double>)
    requires
        lo <= hi <= data.len(),
    ensures
        sorted(out@),
        out@.to_multiset() == data@.subrange(lo as int, hi as int).to_multiset(),
        out.len() == hi - lo,
    decreases hi - lo,
{
    if hi - lo <= 1 {
        let mut out: Vec<Double> = Vec::new();
        if hi > lo {
            out.push(data[lo]);
        }
        proof {
            assert(out@ =~= data@.subrange(lo as int, hi as int));
        }
        out
    } else {
        let mid: usize = lo + (hi - lo) / 2;
        let left: Vec<Double> = sort_range(data, lo, mid);
        let right: Vec<Double> = sort_range(data, mid, hi);
        proof {
            let a = data@.subrange(lo as int, mid as int);
            let b = data@.subrange(mid as int, hi as int);
            assert(a + b =~= data@.subrange(lo as int, hi as int));
            lemma_multiset_commutative(a, b);
        }
        merge(&left, &right)
    }
}

/// Sorts samples into the total order. Samples that occur more than once
/// stay as often as they occur.
pub fn sort(data: &Vec<Double>) -> (out: Vec<Double>)
    ensures
        sorted(out@),
        out@.to_multiset() == data@.to_multiset(),
        out.len() == data.len(),
{
    proof {
        assert(data@.subrange(0, data.len() as int) =~= data@);
    }
    sort_range(data, 0, data.len())
}

/// What holds of every value of a sequence holds of every value of a
/// sequence with the same values.
pub proof fn lemma_same_samples_finite(a: Seq<Double>, b: Seq<Double>)
    requires
        a.to_multiset() == b.to_multiset(),
        all_finite(a),
    ensures
        all_finite(b),
{
    broadcast use vstd::seq_lib::group_to_multiset_ensures;

    assert forall|i: int| 0 <= i < b.len() implies (#[trigger] b[i]).is_finite() by {
        assert(b.to_multiset().count(b[i]) > 0);
    }
}

/// Each value of a sequence occurs in every sequence with the same values.
pub proof fn lemma_same_samples_contains(a: Seq<Double>, b: Seq<Double>, i: int)
    requires
        a.to_multiset() == b.to_multiset(),
        0 <= i < a.len(),
    ensures
        b.contains(a[i]),
{
    broadcast use vstd::seq_lib::group_to_multiset_ensures;

    assert(a.to_multiset().count(a[i]) > 0);
}

} // verus!
