//! The summary of a distribution: its samples, sorted once, and what can be
//! read off them.

use crate::double::{lemma_order_is_value_order, lemma_total_order_refines, unit, Double};
use crate::stats::quantile::{
    lemma_inner_quantile, lemma_quantile_within, lemma_sorted_values, level_rank, quantile_of,
    quantile_scaled, Quantile,
};
use crate::stats::samples::{
    all_finite, all_positive, is_maximum, is_minimum, lemma_same_samples_contains,
    lemma_same_samples_finite, sort, sorted,
};
use vstd::arithmetic::div_mod::lemma_div_is_ordered;
use vstd::arithmetic::power2::lemma_pow2_pos;
use vstd::prelude::*;
use vstd::relations::{sorted_by, total_ordering};
use vstd::seq_lib::lemma_sorted_unique;

verus! {

/// The sorted samples of a distribution.
pub struct Stats {
    /// The samples, ascending.
    pub data: Vec<Double>,
    /// How many samples there are.
    pub n: usize,
}

impl Stats {
    /// Whether the record is in order: the count is right, and the samples
    /// are finite and ascend.
    pub open spec fn wf(&self) -> bool {
        &&& self.n == self.data.len()
        &&& sorted(self.data@)
        &&& all_finite(self.data@)
    }

    /// Sorts a set of samples. Samples that occur more than once stay as
    /// often as they occur.
    pub fn new(data: Vec<Double>) -> (stats: Stats)
        requires
            all_finite(data@),
        ensures
            stats.wf(),
            stats.data@.to_multiset() == data@.to_multiset(),
            stats.n == data.len(),
    {
        let sorted_data: Vec<Double> = sort(&data);
        proof {
            lemma_same_samples_finite(data@, sorted_data@);
        }
        Stats { n: sorted_data.len(), data: sorted_data }
    }

    /// Whether the geometric mean of the samples is defined: there is a
    /// sample, and every sample is greater than zero.
    pub open spec fn geometric_mean_defined(&self) -> bool {
        self.n > 0 && all_positive(self.data@)
    }

    /// Decides whether the geometric mean of the samples is defined.
    pub fn has_geometric_mean(&self) -> (r: bool)
        requires
            self.wf(),
        ensures
            r == self.geometric_mean_defined(),
    {
        if self.n == 0 {
            return false;
        }
        let least: Double = self.data[0];
        Double::zero().lt(least)
    }

    /// Finds the quantile at the level `q`.
    pub fn quantile(&self, q: Double) -> (r: Quantile)
        requires
            self.wf(),
        ensures
            r == quantile_of(self.data@, q),
    {
        if self.n == 0 || q.is_nan() {
            return Quantile::Undefined;
        }
        if q.le(Double::zero()) {
            return Quantile::Exact(self.data[0]);
        }
        if Double::one().le(q) {
            return Quantile::Exact(self.data[self.n - 1]);
        }
        let (rank, numerator, shift): (usize, u128, u32) = level_rank(q, self.n - 1);
        if numerator == 0 {
            Quantile::Exact(self.data[rank])
        } else {
            Quantile::Between {
                rank,
                below: self.data[rank],
                above: self.data[rank + 1],
                numerator,
                shift,
            }
        }
    }
}

/// The quantile at level zero is the least of the samples, and the quantile
/// at level one is the greatest.
pub proof fn lemma_quantile_extremes(samples: Seq<Double>, stats: Stats)
    requires
        stats.wf(),
        stats.data@.to_multiset() == samples.to_multiset(),
        samples.len() > 0,
    ensures
        stats.data@.len() > 0,
        quantile_of(stats.data@, Double::zero()) == Quantile::Exact(stats.data@.first()),
        is_minimum(stats.data@.first(), samples),
        quantile_of(stats.data@, Double::one()) == Quantile::Exact(stats.data@.last()),
        is_maximum(stats.data@.last(), samples),
{
    broadcast use vstd::seq_lib::group_to_multiset_ensures;

    let data = stats.data@;
    assert(data.len() == data.to_multiset().len() == samples.len());
    lemma_same_samples_contains(data, samples, 0);
    lemma_same_samples_contains(data, samples, data.len() - 1);
    assert forall|i: int| 0 <= i < samples.len() implies data.first().le(
        #[trigger] samples[i],
    ) && samples[i].le(data.last()) by {
        lemma_same_samples_contains(samples, data, i);
        let k = choose|k: int| 0 <= k < data.len() && data[k] == samples[i];
        lemma_total_order_refines(data.first(), data[k]);
        lemma_total_order_refines(data[k], data.last());
    }
}

/// The order in which the samples come does not matter: the same samples, in
/// whatever order, give the same sorted sequence, and with it the same count
/// and the same quantile at every level.
pub proof fn lemma_order_independence(a: Stats, b: Stats)
    requires
        a.wf(),
        b.wf(),
        a.data@.to_multiset() == b.data@.to_multiset(),
    ensures
        a.data@ == b.data@,
        a.n == b.n,
        forall|q: Double| quantile_of(a.data@, q) == quantile_of(b.data@, q),
{
    // The total order sets no two doubles equal, so samples can be sorted in
    // one way only.
    let leq = |x: Double, y: Double| x.total_order() <= y.total_order();
    assert(total_ordering(leq));
    lemma_sorted_unique(a.data@, b.data@, leq);
}

/// The geometric mean of one sample or more is undefined exactly when one
/// of the samples is zero or less.
pub proof fn lemma_geometric_mean_defined(samples: Seq<Double>, stats: Stats)
    requires
        stats.wf(),
        stats.data@.to_multiset() == samples.to_multiset(),
        samples.len() > 0,
    ensures
        !stats.geometric_mean_defined() <==> exists|i: int|
            0 <= i < samples.len() && (#[trigger] samples[i]).le(Double::zero()),
{
    broadcast use vstd::seq_lib::group_to_multiset_ensures;

    let data = stats.data@;
    assert(data.len() == data.to_multiset().len() == samples.len());
    if stats.geometric_mean_defined() {
        assert forall|i: int| 0 <= i < samples.len() implies !(#[trigger] samples[i]).le(
            Double::zero(),
        ) by {
            // The sample stands somewhere among the sorted ones, all of
            // which are greater than zero.
            lemma_same_samples_contains(samples, data, i);
            let k = choose|k: int| 0 <= k < data.len() && data[k] == samples[i];
            assert(Double::zero().lt(data[k]));
        }
    } else {
        // One of the sorted samples is zero or less, and it is one of the
        // samples as they came.
        let k = choose|k: int| 0 <= k < data.len() && !Double::zero().lt(#[trigger] data[k]);
        lemma_same_samples_contains(data, samples, k);
        let i = choose|i: int| 0 <= i < samples.len() && samples[i] == data[k];
        assert(samples[i].le(Double::zero()));
    }
}

/// The quantile does not fall when the level rises.
///
/// The claim is about the value that an answer stands for, with nothing
/// rounded: for levels `q1 <= q2`, that value at `q1` is at most that at
/// `q2`.
pub proof fn lemma_quantile_monotone(stats: Stats, q1: Double, q2: Double)
    requires
        stats.wf(),
        stats.n > 0,
        q1.le(q2),
    ensures
        quantile_scaled(quantile_of(stats.data@, q1)) <= quantile_scaled(
            quantile_of(stats.data@, q2),
        ),
{
    let data = stats.data@;
    let d = unit();
    let last = data.len() - 1;
    lemma_pow2_pos(1074);
    let v1 = quantile_scaled(quantile_of(data, q1));
    // Every answer lies between the least sample and the greatest.
    assert forall|q: Double| !q.is_nan() implies data[0].scaled() * d <= quantile_scaled(
        #[trigger] quantile_of(data, q),
    ) <= data[last].scaled() * d by {
        lemma_quantile_within(data, q);
    }
    if q1.le(Double::zero()) || Double::one().le(q2) {
        // One of the two answers is the least sample or the greatest.
    } else {
        lemma_inner_quantile(data, q1);
        lemma_inner_quantile(data, q2);
        lemma_order_is_value_order(q1, q2);
        let x1 = q1.scaled() * last;
        let x2 = q2.scaled() * last;
        assert(x1 <= x2) by (nonlinear_arith)
            requires
                x1 == q1.scaled() * last,
                x2 == q2.scaled() * last,
                q1.scaled() <= q2.scaled(),
                0 <= last,
        ;
        lemma_div_is_ordered(x1, x2, d);
        let (rank1, part1) = (x1 / d, x1 % d);
        let (rank2, part2) = (x2 / d, x2 % d);
        if rank1 == rank2 {
            if part1 > 0 {
                lemma_sorted_values(data, rank1, rank1 + 1);
                let rise = data[rank1 + 1].scaled() - data[rank1].scaled();
                assert(rise * part1 <= rise * part2) by (nonlinear_arith)
                    requires
                        0 <= rise,
                        part1 <= part2,
                ;
            } else if part2 > 0 {
                lemma_sorted_values(data, rank2, rank2 + 1);
                let rise = data[rank2 + 1].scaled() - data[rank2].scaled();
                assert(0 <= rise * part2) by (nonlinear_arith)
                    requires
                        0 <= rise,
                        0 <= part2,
                ;
            }
        } else {
            // The first answer is at most the sample behind its rank, the
            // second at least the sample at its rank.
            let hi1 = if part1 > 0 {
                rank1 + 1
            } else {
                rank1
            };
            lemma_sorted_values(data, rank1, hi1);
            lemma_sorted_values(data, hi1, rank2);
            let (a, b, c) = (data[rank1].scaled(), data[hi1].scaled(), data[rank2].scaled());
            assert(v1 <= b * d) by (nonlinear_arith)
                requires
                    v1 == a * d + if part1 > 0 {
                        (b - a) * part1
                    } else {
                        0
                    },
                    a <= b,
                    0 <= part1 < d,
            ;
            assert(b * d <= c * d) by (nonlinear_arith)
                requires
                    b <= c,
                    0 < d,
            ;
            if part2 > 0 {
                lemma_sorted_values(data, rank2, rank2 + 1);
                let rise = data[rank2 + 1].scaled() - data[rank2].scaled();
                assert(0 <= rise * part2) by (nonlinear_arith)
                    requires
                        0 <= rise,
                        0 <= part2,
                ;
            }
        }
    }
}

} // verus!
