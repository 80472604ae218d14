//! The sample windows and the plotting range of a Gaussian kernel density
//! estimate.
//!
//! The density at a point is a sum of kernel values over the samples near
//! the point. Samples farther away than a few bandwidths add next to
//! nothing, so the sum runs over a window of the sorted samples. This module
//! finds that window and describes the range worth plotting.

use crate::double::{lemma_total_order_refines, Double};
use crate::stats::{all_finite, check_samples, sorted};
use vstd::prelude::*;

verus! {

/// Whether exactly the first `count` samples are less than `bound`.
pub open spec fn counts_below(data: Seq<Double>, bound: Double, count: int) -> bool {
    &&& 0 <= count <= data.len()
    &&& forall|i: int| 0 <= i < count ==> (#[trigger] data[i]).lt(bound)
    &&& forall|i: int| count <= i < data.len() ==> !(#[trigger] data[i]).lt(bound)
}

/// Whether exactly the first `count` samples are less than or equal to
/// `bound`.
pub open spec fn counts_at_most(data: Seq<Double>, bound: Double, count: int) -> bool {
    &&& 0 <= count <= data.len()
    &&& forall|i: int| 0 <= i < count ==> (#[trigger] data[i]).le(bound)
    &&& forall|i: int| count <= i < data.len() ==> !(#[trigger] data[i]).le(bound)
}

/// Whether every value of a sequence is zero or more.
pub open spec fn all_non_negative(s: Seq<Double>) -> bool {
    forall|i: int| 0 <= i < s.len() ==> Double::zero().le(#[trigger] s[i])
}

/// The range of values worth plotting.
#[derive(Clone, Copy, Debug, PartialEq, Eq, Structural)]
pub enum Bounds {
    /// There are no samples: the range runs from zero to one.
    NoData,
    /// The range runs from `least` to `greatest`, widened at both ends by a
    /// tenth of the distance between the two. Where `clamp` holds, no sample
    /// is negative, and the lower end stops at zero.
    Padded { least: Double, greatest: Double, clamp: bool },
}

/// The plotting range of samples that ascend.
pub open spec fn bounds_of(data: Seq<Double>) -> Bounds {
    if data.len() == 0 {
        Bounds::NoData
    } else {
        Bounds::Padded {
            least: data.first(),
            greatest: data.last(),
            clamp: Double::zero().le(data.first()),
        }
    }
}

/// Samples that ascend in the total order ascend in the numeric order.
proof fn lemma_sorted_keys(data: Seq<Double>, i: int, j: int)
    requires
        sorted(data),
        all_finite(data),
        0 <= i <= j < data.len(),
    ensures
        data[i].order() <= data[j].order(),
        !data[i].is_nan(),
        !data[j].is_nan(),
{
    lemma_total_order_refines(data[i], data[j]);
}

/// Counts the samples below `bound`, or, with `inclusive`, those at or below
/// it.
fn count_before(data: &[Double], bound: Double, inclusive: bool) -> (count: usize)
    requires
        sorted(data@),
        all_finite(data@),
    ensures
        !inclusive ==> counts_below(data@, bound, count as int),
        inclusive ==> counts_at_most(data@, bound, count as int),
{
    if bound.is_nan() {
        return 0;
    }
    let key: i64 = bound.key();
    let mut lo: usize = 0;
    let mut hi: usize = data.len();
    while lo < hi
        invariant
            lo <= hi <= data.len(),
            sorted(data@),
            all_finite(data@),
            !bound.is_nan(),
            key == bound.order(),
            forall|i: int|
                0 <= i < lo ==> if inclusive {
                    (#[trigger] data@[i]).order() <= key
                } else {
                    data@[i].order() < key
                },
            forall|i: int|
                hi <= i < data.len() ==> !if inclusive {
                    (#[trigger] data@[i]).order() <= key
                } else {
                    data@[i].order() < key
                },
        decreases hi - lo,
    {
        let mid: usize = lo + (hi - lo) / 2;
        let here: i64 = data[mid].key();
        let before: bool = if inclusive {
            here <= key
        } else {
            here < key
        };
        if before {
            proof {
                assert forall|i: int| 0 <= i < mid + 1 implies if inclusive {
                    (#[trigger] data@[i]).order() <= key
                } else {
                    data@[i].order() < key
                } by {
                    lemma_sorted_keys(data@, i, mid as int);
                }
            }
            lo = mid + 1;
        } else {
            proof {
                assert forall|i: int| mid <= i < data.len() implies !if inclusive {
                    (#[trigger] data@[i]).order() <= key
                } else {
                    data@[i].order() < key
                } by {
                    lemma_sorted_keys(data@, mid as int, i);
                }
            }
            hi = mid;
        }
    }
    proof {
        assert forall|i: int| 0 <= i < data@.len() implies !(#[trigger] data@[i]).is_nan() by {
            lemma_sorted_keys(data@, i, i);
        }
    }
    lo
}

/// A density estimator over sorted samples. It borrows the samples and never
/// changes them.
pub struct KDE<'a> {
    data: &'a [Double],
}

impl<'a> View for KDE<'a> {
    type V = Seq<Double>;

    closed spec fn view(&self) -> Seq<Double> {
        self.data@
    }
}

impl<'a> KDE<'a> {
    /// What holds of the samples of every estimator: they are finite and
    /// ascend.
    #[verifier::type_invariant]
    spec fn ascending(self) -> bool {
        sorted(self.data@) && all_finite(self.data@)
    }

    /// Takes samples that are finite and ascend.
    pub fn new(data: &'a [Double]) -> (kde: KDE<'a>)
        requires
            sorted(data@),
            all_finite(data@),
        ensures
            kde@ == data@,
    {
        KDE { data }
    }

    /// Takes any samples, and refuses those that are not finite or do not
    /// ascend.
    pub fn try_new(data: &'a [Double]) -> (kde: Option<KDE<'a>>)
        ensures
            kde is Some <==> sorted(data@) && all_finite(data@),
            kde matches Some(k) ==> k@ == data@,
    {
        if check_samples(data) {
            Some(KDE { data })
        } else {
            None
        }
    }

    /// The samples, as they were given.
    pub fn data(&self) -> (data: &'a [Double])
        ensures
            data@ == self@,
            sorted(data@),
            all_finite(data@),
    {
        proof {
            use_type_invariant(self);
        }
        self.data
    }

    /// Finds the samples from `lower` to `upper`, both included: they are
    /// the samples from the index `window.0` up to, not including, the index
    /// `window.1`.
    ///
    /// The first index counts the samples below `lower`, the second the
    /// samples at or below `upper`. A bound that is no number has no samples
    /// below it.
    pub fn window(&self, lower: Double, upper: Double) -> (window: (usize, usize))
        ensures
            counts_below(self@, lower, window.0 as int),
            counts_at_most(self@, upper, window.1 as int),
            lower.le(upper) ==> window.0 <= window.1,
            !lower.is_nan() ==> forall|i: int|
                0 <= i < self@.len() ==> (window.0 <= i < window.1 <==> lower.le(
                    #[trigger] self@[i],
                ) && self@[i].le(upper)),
    {
        proof {
            use_type_invariant(self);
        }
        let start: usize = count_before(self.data, lower, false);
        let end: usize = count_before(self.data, upper, true);
        proof {
            if lower.le(upper) && end < start {
                assert(!self.data@[end as int].le(upper));
            }
        }
        (start, end)
    }

    /// Describes the range worth plotting.
    pub fn bounds(&self) -> (bounds: Bounds)
        ensures
            bounds == bounds_of(self@),
    {
        let n: usize = self.data.len();
        if n == 0 {
            Bounds::NoData
        } else {
            let least: Double = self.data[0];
            let greatest: Double = self.data[n - 1];
            Bounds::Padded { least, greatest, clamp: Double::zero().le(least) }
        }
    }
}

/// The lower end of the plotting range stops at zero exactly when no sample
/// is negative.
pub proof fn lemma_bounds_clamp(data: Seq<Double>)
    requires
        sorted(data),
        all_finite(data),
        data.len() > 0,
    ensures
        bounds_of(data) matches Bounds::Padded { least, greatest, clamp } && (clamp
            <==> all_non_negative(data)),
{
    if Double::zero().le(data.first()) {
        assert forall|i: int| 0 <= i < data.len() implies Double::zero().le(
            #[trigger] data[i],
        ) by {
            lemma_sorted_keys(data, 0, i);
        }
    }
}

} // verus!
