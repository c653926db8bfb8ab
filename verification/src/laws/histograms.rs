//! Histogram series record what they are given, and stay cumulative.

use vstd::prelude::*;
use crate::histogram::{
    HistogramView,
    empty_histogram,
    histogram_of,
    histogram_wf,
    lemma_histogram_of,
    observed,
};
use crate::laws::series::{family_taking, lemma_one_series_changes};
use crate::listener::{applied_all, first_refusal, lemma_applied_all};
use crate::registry::{
    FamilyView,
    LabelView,
    MetricKind,
    ObservationView,
    applied,
    family_wf,
    has_family,
    histogram_state,
    key_for,
    kind_of,
    lemma_rank,
    lemma_series_index,
    rank,
    registry_wf,
    series_index,
    state_wf,
};

verus! {

/// One observation of a histogram series.
pub open spec fn timing(name: Seq<u8>, labels: Seq<LabelView>, value: nat) -> ObservationView {
    ObservationView { name, kind: MetricKind::Histogram, labels, value }
}

/// The observations of one histogram series with these values, in their
/// order.
pub open spec fn timings(name: Seq<u8>, labels: Seq<LabelView>, values: Seq<nat>) -> Seq<
    ObservationView,
> {
    values.map_values(|value: nat| timing(name, labels, value))
}

/// A histogram after more observations, made in their order.
pub open spec fn observed_all(h: HistogramView, values: Seq<nat>) -> HistogramView
    decreases values.len(),
{
    if values.len() == 0 {
        h
    } else {
        observed(observed_all(h, values.drop_last()), values.last())
    }
}

/// An observation that the registry takes for a histogram series is
/// recorded in that series.
pub proof fn lemma_timing_is_recorded(r: Seq<FamilyView>, o: ObservationView)
    requires
        registry_wf(r),
        o.kind == MetricKind::Histogram,
        applied(r, o) is Ok,
    ensures
        histogram_state(applied(r, o)->Ok_0, o.name, o.labels) == observed(
            histogram_state(r, o.name, o.labels),
            o.value,
        ),
{
    lemma_one_series_changes(r, o, o.name, o.labels);
    let f = family_taking(r, o);
    let key = key_for(f.label_names, o.labels)->0;
    let j = series_index(f.series, key);
    lemma_series_index(f.series, key);
    lemma_rank(r, o.name);
    if j < f.series.len() {
        assert(family_wf(f));
        assert(kind_of(f.series[j].state) == f.kind);
    }
}

/// The observations of one histogram series that the registry takes, one
/// after the other, are all recorded in it, in their order.
pub proof fn lemma_timings_are_recorded(
    r: Seq<FamilyView>,
    name: Seq<u8>,
    labels: Seq<LabelView>,
    values: Seq<nat>,
)
    requires
        registry_wf(r),
        first_refusal(r, timings(name, labels, values)) is None,
    ensures
        histogram_state(applied_all(r, timings(name, labels, values)), name, labels)
            == observed_all(histogram_state(r, name, labels), values),
    decreases values.len(),
{
    let os = timings(name, labels, values);
    if values.len() > 0 {
        let earlier = values.drop_last();
        assert(os.drop_last() =~= timings(name, labels, earlier));
        assert(os.last() == timing(name, labels, values.last()));
        lemma_timings_are_recorded(r, name, labels, earlier);
        lemma_applied_all(r, os.drop_last());
        lemma_timing_is_recorded(applied_all(r, os.drop_last()), os.last());
    }
}

/// Observations recorded from nothing make the histogram of their values.
pub proof fn lemma_observed_from_nothing(values: Seq<nat>)
    ensures
        observed_all(empty_histogram(), values) == histogram_of(values),
    decreases values.len(),
{
    if values.len() > 0 {
        lemma_observed_from_nothing(values.drop_last());
    }
}

/// In a registry that is in order every histogram series is cumulative: a
/// bucket holds no more than one with a larger bound, and none holds more
/// than the count of all observations.
pub proof fn lemma_histograms_are_cumulative(
    r: Seq<FamilyView>,
    name: Seq<u8>,
    labels: Seq<LabelView>,
)
    requires
        registry_wf(r),
    ensures
        histogram_wf(histogram_state(r, name, labels)),
{
    if has_family(r, name) {
        lemma_rank(r, name);
        let f = r[rank(r, name)];
        if let Some(key) = key_for(f.label_names, labels) {
            let j = series_index(f.series, key);
            lemma_series_index(f.series, key);
            if j < f.series.len() {
                assert(family_wf(f));
                assert(state_wf(f.series[j].state));
            }
        }
    }
    lemma_histogram_of(Seq::<nat>::empty());
}

} // verus!
