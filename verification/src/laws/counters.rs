//! Counters add up, in whatever order their increments come, and never
//! go down.

use vstd::prelude::*;
use crate::laws::series::{family_taking, is_series_of, lemma_one_series_changes};
use crate::listener::{applied_all, first_refusal, lemma_applied_all};
use crate::registry::{
    FamilyView,
    LabelView,
    MetricKind,
    ObservationView,
    applied,
    counter_total,
    family_applied,
    family_for,
    family_wf,
    has_family,
    key_for,
    kind_of,
    lemma_applied,
    lemma_family_applied,
    lemma_rank,
    lemma_rank_is_place,
    lemma_series_index,
    lemma_series_index_is_place,
    rank,
    registry_wf,
    series_index,
};

verus! {

/// One increment of a counter series.
pub open spec fn increment(name: Seq<u8>, labels: Seq<LabelView>, amount: nat) -> ObservationView {
    ObservationView { name, kind: MetricKind::Counter, labels, value: amount }
}

/// The increments of one counter series by these amounts, in their order.
pub open spec fn increments(name: Seq<u8>, labels: Seq<LabelView>, amounts: Seq<nat>) -> Seq<
    ObservationView,
> {
    amounts.map_values(|amount: nat| increment(name, labels, amount))
}

/// The sum of the amounts.
pub open spec fn total_of(amounts: Seq<nat>) -> nat
    decreases amounts.len(),
{
    if amounts.len() == 0 {
        0
    } else {
        total_of(amounts.drop_last()) + amounts.last()
    }
}

/// Whether `merged` is made of `left` and `right`, each in its own order,
/// mixed in any way.
pub open spec fn interleaves(merged: Seq<nat>, left: Seq<nat>, right: Seq<nat>) -> bool
    decreases merged.len(),
{
    if merged.len() == 0 {
        left.len() == 0 && right.len() == 0
    } else {
        ||| left.len() > 0 && left.last() == merged.last() && interleaves(
            merged.drop_last(),
            left.drop_last(),
            right,
        )
        ||| right.len() > 0 && right.last() == merged.last() && interleaves(
            merged.drop_last(),
            left,
            right.drop_last(),
        )
    }
}

/// An increment that the registry takes adds its amount to the total of
/// its series.
pub proof fn lemma_increment_adds(r: Seq<FamilyView>, o: ObservationView)
    requires
        registry_wf(r),
        o.kind == MetricKind::Counter,
        applied(r, o) is Ok,
    ensures
        counter_total(applied(r, o)->Ok_0, o.name, o.labels) == counter_total(r, o.name, o.labels)
            + o.value,
{
    let s = applied(r, o)->Ok_0;
    let i = rank(r, o.name);
    lemma_applied(r, o);
    lemma_rank(r, o.name);
    let f = if has_family(r, o.name) {
        r[i]
    } else {
        family_for(o)
    };
    let g = family_applied(f, o)->Ok_0;
    lemma_family_applied(f, o);
    if has_family(r, o.name) {
        assert(s[i] == g);
    } else {
        r.insert_ensures(i, g);
    }
    lemma_rank_is_place(s, i);
    let key = key_for(f.label_names, o.labels)->0;
    let j = series_index(f.series, key);
    lemma_series_index(f.series, key);
    assert(g.series[j].key == key);
    lemma_series_index_is_place(g.series, j);
    if j < f.series.len() {
        assert(kind_of(f.series[j].state) == f.kind);
    }
}

/// The increments of one series that the registry takes, one after the
/// other, add up: the total after them is the total before them and the sum
/// of their amounts.
pub proof fn lemma_counter_adds_up(
    r: Seq<FamilyView>,
    name: Seq<u8>,
    labels: Seq<LabelView>,
    amounts: Seq<nat>,
)
    requires
        registry_wf(r),
        first_refusal(r, increments(name, labels, amounts)) is None,
    ensures
        counter_total(applied_all(r, increments(name, labels, amounts)), name, labels)
            == counter_total(r, name, labels) + total_of(amounts),
    decreases amounts.len(),
{
    let os = increments(name, labels, amounts);
    if amounts.len() > 0 {
        let earlier = amounts.drop_last();
        assert(os.drop_last() =~= increments(name, labels, earlier));
        assert(os.last() == increment(name, labels, amounts.last()));
        lemma_counter_adds_up(r, name, labels, earlier);
        lemma_applied_all(r, os.drop_last());
        lemma_increment_adds(applied_all(r, os.drop_last()), os.last());
    }
}

/// The sum of the amounts that two writers bring does not depend on how
/// their amounts are mixed.
pub proof fn lemma_interleaving_sum(merged: Seq<nat>, left: Seq<nat>, right: Seq<nat>)
    requires
        interleaves(merged, left, right),
    ensures
        total_of(merged) == total_of(left) + total_of(right),
    decreases merged.len(),
{
    if merged.len() > 0 {
        if left.len() > 0 && left.last() == merged.last() && interleaves(
            merged.drop_last(),
            left.drop_last(),
            right,
        ) {
            lemma_interleaving_sum(merged.drop_last(), left.drop_last(), right);
        } else {
            lemma_interleaving_sum(merged.drop_last(), left, right.drop_last());
        }
    }
}

/// However the increments of two writers to one series are mixed, if the
/// registry takes them all, the total grows by the sum of all their amounts.
pub proof fn lemma_counter_interleaved(
    r: Seq<FamilyView>,
    name: Seq<u8>,
    labels: Seq<LabelView>,
    merged: Seq<nat>,
    left: Seq<nat>,
    right: Seq<nat>,
)
    requires
        registry_wf(r),
        interleaves(merged, left, right),
        first_refusal(r, increments(name, labels, merged)) is None,
    ensures
        counter_total(applied_all(r, increments(name, labels, merged)), name, labels)
            == counter_total(r, name, labels) + total_of(left) + total_of(right),
{
    lemma_counter_adds_up(r, name, labels, merged);
    lemma_interleaving_sum(merged, left, right);
}

/// The total of a counter series never goes down, whatever the registry
/// takes.
pub proof fn lemma_counters_never_go_down(
    r: Seq<FamilyView>,
    o: ObservationView,
    name: Seq<u8>,
    labels: Seq<LabelView>,
)
    requires
        registry_wf(r),
        applied(r, o) is Ok,
    ensures
        counter_total(applied(r, o)->Ok_0, name, labels) >= counter_total(r, name, labels),
{
    lemma_one_series_changes(r, o, name, labels);
    if is_series_of(r, o, name, labels) {
        let f = family_taking(r, o);
        let key = key_for(f.label_names, o.labels)->0;
        let j = series_index(f.series, key);
        lemma_series_index(f.series, key);
        lemma_rank(r, o.name);
        if j < f.series.len() {
            assert(family_wf(f));
            assert(kind_of(f.series[j].state) == f.kind);
        }
    }
}

} // verus!
