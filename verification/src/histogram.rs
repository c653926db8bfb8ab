//! Cumulative histograms over fixed bucket bounds.
//!
//! A value is a fixed-point number of seconds, counted in nanoseconds. The
//! upper bounds of the buckets are 0.005, 0.01, 0.025, 0.05, 0.1, 0.25, 0.5,
//! 1, 2.5, 5 and 10 seconds; the bucket without a bound is the count of all
//! observations.

use vstd::prelude::*;
use vstd::slice::slice_to_vec;

verus! {

/// The number of buckets that have an upper bound.
pub const BUCKETS: usize = 11;

/// The upper bound of bucket `i`, in nanoseconds.
pub open spec fn bucket_bound(i: int) -> nat {
    if i <= 0 {
        5_000_000
    } else if i == 1 {
        10_000_000
    } else if i == 2 {
        25_000_000
    } else if i == 3 {
        50_000_000
    } else if i == 4 {
        100_000_000
    } else if i == 5 {
        250_000_000
    } else if i == 6 {
        500_000_000
    } else if i == 7 {
        1_000_000_000
    } else if i == 8 {
        2_500_000_000
    } else if i == 9 {
        5_000_000_000
    } else {
        10_000_000_000
    }
}

/// The upper bound of bucket `i`, in nanoseconds.
pub fn bound_of(i: usize) -> (b: u64)
    ensures
        b == bucket_bound(i as int),
{
    if i == 0 {
        5_000_000
    } else if i == 1 {
        10_000_000
    } else if i == 2 {
        25_000_000
    } else if i == 3 {
        50_000_000
    } else if i == 4 {
        100_000_000
    } else if i == 5 {
        250_000_000
    } else if i == 6 {
        500_000_000
    } else if i == 7 {
        1_000_000_000
    } else if i == 8 {
        2_500_000_000
    } else if i == 9 {
        5_000_000_000
    } else {
        10_000_000_000
    }
}

/// The state of one histogram series: the sum of the observed values, the
/// number of observations, and for each bound the number of observed values
/// that do not exceed it.
#[derive(Debug, PartialEq, Eq)]
pub struct Histogram {
    sum: u64,
    count: u64,
    buckets: Vec<u64>,
}

/// A histogram as a mathematical value.
pub struct HistogramView {
    pub sum: nat,
    pub count: nat,
    pub buckets: Seq<nat>,
}

impl View for Histogram {
    type V = HistogramView;

    closed spec fn view(&self) -> HistogramView {
        HistogramView {
            sum: self.sum as nat,
            count: self.count as nat,
            buckets: self.buckets@.map_values(|b: u64| b as nat),
        }
    }
}

/// The buckets are cumulative: none holds more than a bucket with a larger
/// bound, and none more than the count of all observations.
pub open spec fn histogram_wf(h: HistogramView) -> bool {
    &&& h.buckets.len() == BUCKETS
    &&& forall|i: int, j: int| 0 <= i <= j < BUCKETS ==> h.buckets[i] <= h.buckets[j]
    &&& forall|i: int| 0 <= i < BUCKETS ==> h.buckets[i] <= h.count
}

/// The histogram without observations.
pub open spec fn empty_histogram() -> HistogramView {
    HistogramView { sum: 0, count: 0, buckets: Seq::new(BUCKETS as nat, |i: int| 0nat) }
}

/// The histogram after one more observation: the value is added to the sum,
/// the count grows by one, and so does every bucket whose bound is not below
/// the value.
pub open spec fn observed(h: HistogramView, value: nat) -> HistogramView {
    HistogramView {
        sum: h.sum + value,
        count: h.count + 1,
        buckets: Seq::new(
            BUCKETS as nat,
            |i: int|
                if value <= bucket_bound(i) {
                    h.buckets[i] + 1
                } else {
                    h.buckets[i]
                },
        ),
    }
}

/// Whether one more observation still fits the counters of the series.
pub open spec fn can_observe(h: HistogramView, value: nat) -> bool {
    h.count + 1 <= u64::MAX && h.sum + value <= u64::MAX
}

/// The histogram of a sequence of observations, made in that order.
pub open spec fn histogram_of(values: Seq<nat>) -> HistogramView
    decreases values.len(),
{
    if values.len() == 0 {
        empty_histogram()
    } else {
        observed(histogram_of(values.drop_last()), values.last())
    }
}

/// How many of the values do not exceed `bound`.
pub open spec fn count_at_most(values: Seq<nat>, bound: nat) -> nat
    decreases values.len(),
{
    if values.len() == 0 {
        0
    } else {
        count_at_most(values.drop_last(), bound) + if values.last() <= bound {
            1nat
        } else {
            0nat
        }
    }
}

/// The sum of the values.
pub open spec fn sum_of(values: Seq<nat>) -> nat
    decreases values.len(),
{
    if values.len() == 0 {
        0
    } else {
        sum_of(values.drop_last()) + values.last()
    }
}

/// A larger bound is not exceeded by fewer values, and no bound by more
/// values than there are.
pub proof fn lemma_count_at_most(values: Seq<nat>, low: nat, high: nat)
    requires
        low <= high,
    ensures
        count_at_most(values, low) <= count_at_most(values, high),
        count_at_most(values, high) <= values.len(),
    decreases values.len(),
{
    if values.len() > 0 {
        lemma_count_at_most(values.drop_last(), low, high);
    }
}

/// Whatever was observed, and in whatever order: each bucket holds the
/// number of values that do not exceed its bound, so a bucket with a larger
/// bound holds no less, and the count is the number of observations.
pub proof fn lemma_histogram_of(values: Seq<nat>)
    ensures
        histogram_wf(histogram_of(values)),
        histogram_of(values).count == values.len(),
        histogram_of(values).sum == sum_of(values),
        forall|i: int|
            0 <= i < BUCKETS ==> #[trigger] histogram_of(values).buckets[i] == count_at_most(
                values,
                bucket_bound(i),
            ),
    decreases values.len(),
{
    if values.len() > 0 {
        lemma_histogram_of(values.drop_last());
    }
    let h = histogram_of(values);
    assert forall|i: int, j: int| 0 <= i <= j < BUCKETS implies h.buckets[i] <= h.buckets[j] by {
        lemma_count_at_most(values, bucket_bound(i), bucket_bound(j));
    }
    assert forall|i: int| 0 <= i < BUCKETS implies h.buckets[i] <= h.count by {
        lemma_count_at_most(values, bucket_bound(i), bucket_bound(i));
    }
}

/// One more observation keeps the buckets cumulative.
pub proof fn lemma_observed_wf(h: HistogramView, value: nat)
    requires
        histogram_wf(h),
    ensures
        histogram_wf(observed(h, value)),
{
}

impl Clone for Histogram {
    fn clone(&self) -> (h: Histogram)
        ensures
            h@ == self@,
    {
        self.duplicate()
    }
}

impl Histogram {
    /// Every histogram is cumulative, at all times.
    #[verifier::type_invariant]
    closed spec fn cumulative(self) -> bool {
        histogram_wf(self@)
    }

    /// A histogram without observations.
    pub fn new() -> (h: Histogram)
        ensures
            h@ == empty_histogram(),
            histogram_wf(h@),
    {
        let mut buckets: Vec<u64> = Vec::new();
        let mut i: usize = 0;
        while i < BUCKETS
            invariant
                i <= BUCKETS,
                buckets@.len() == i,
                forall|k: int| 0 <= k < i ==> buckets@[k] == 0,
            decreases BUCKETS - i,
        {
            buckets.push(0);
            i = i + 1;
        }
        proof {
            let h = HistogramView {
                sum: 0,
                count: 0,
                buckets: buckets@.map_values(|b: u64| b as nat),
            };
            assert(h.buckets =~= empty_histogram().buckets);
        }
        Histogram { sum: 0, count: 0, buckets }
    }

    /// The sum of the observed values.
    pub fn sum(&self) -> (sum: u64)
        ensures
            sum == self@.sum,
    {
        self.sum
    }

    /// The number of observations.
    pub fn count(&self) -> (count: u64)
        ensures
            count == self@.count,
    {
        self.count
    }

    /// For each bound, the number of observed values that do not exceed it.
    pub fn buckets(&self) -> (buckets: &Vec<u64>)
        ensures
            histogram_wf(self@),
            buckets@.len() == BUCKETS,
            buckets@.map_values(|b: u64| b as nat) == self@.buckets,
    {
        proof {
            use_type_invariant(self);
        }
        &self.buckets
    }

    /// A copy of the histogram.
    pub fn duplicate(&self) -> (h: Histogram)
        ensures
            h@ == self@,
            histogram_wf(h@),
    {
        proof {
            use_type_invariant(self);
        }
        let buckets = slice_to_vec(self.buckets.as_slice());
        Histogram { sum: self.sum, count: self.count, buckets }
    }

    /// Records one observation, unless the sum or the count would no longer
    /// fit: then nothing changes, and the answer is `false`.
    pub fn observe(&mut self, value: u64) -> (recorded: bool)
        ensures
            histogram_wf(old(self)@),
            histogram_wf(final(self)@),
            recorded == can_observe(old(self)@, value as nat),
            final(self)@ == if recorded {
                observed(old(self)@, value as nat)
            } else {
                old(self)@
            },
    {
        proof {
            use_type_invariant(&*self);
        }
        if self.count == u64::MAX || self.sum > u64::MAX - value {
            return false;
        }
        let ghost before = self@;
        let mut buckets: Vec<u64> = Vec::new();
        let mut i: usize = 0;
        while i < BUCKETS
            invariant
                i <= BUCKETS,
                before == self@,
                histogram_wf(before),
                before.count < u64::MAX,
                self.buckets@.len() == BUCKETS,
                buckets@.len() == i,
                forall|k: int|
                    0 <= k < i ==> #[trigger] buckets@[k] == if value <= bucket_bound(k) {
                        before.buckets[k] + 1
                    } else {
                        before.buckets[k]
                    },
            decreases BUCKETS - i,
        {
            assert(before.buckets[i as int] <= before.count);
            if value <= bound_of(i) {
                buckets.push(self.buckets[i] + 1);
            } else {
                buckets.push(self.buckets[i]);
            }
            i = i + 1;
        }
        proof {
            let after = observed(before, value as nat);
            lemma_observed_wf(before, value as nat);
            assert(buckets@.map_values(|b: u64| b as nat) =~= after.buckets);
        }
        *self = Histogram { sum: self.sum + value, count: self.count + 1, buckets };
        true
    }
}

} // verus!
