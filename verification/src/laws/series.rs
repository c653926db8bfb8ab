//! An observation changes one series and no other.

use vstd::prelude::*;
use vstd::seq_lib::{to_multiset_contains, to_multiset_len};
use crate::laws::scraping::taken;
use crate::registry::{
    FamilyView,
    LabelView,
    ObservationView,
    SeriesState,
    all_different,
    applied,
    family_applied,
    family_for,
    first_state,
    has_family,
    key_for,
    label_names_of,
    lemma_applied,
    lemma_families_brought,
    lemma_families_kept,
    lemma_family_applied,
    lemma_rank,
    lemma_rank_is_place,
    lemma_series_index,
    lemma_series_index_by_keys,
    lemma_series_index_is_place,
    lemma_series_index_push,
    next_state,
    rank,
    registry_wf,
    series_index,
    series_state,
    value_named,
};

verus! {

/// The family that takes an observation: that of its name, or the one that
/// the observation makes.
pub open spec fn family_taking(r: Seq<FamilyView>, o: ObservationView) -> FamilyView {
    if has_family(r, o.name) {
        r[rank(r, o.name)]
    } else {
        family_for(o)
    }
}

/// Whether these labels, under this name, mean the series that an
/// observation updates.
pub open spec fn is_series_of(
    r: Seq<FamilyView>,
    o: ObservationView,
    name: Seq<u8>,
    labels: Seq<LabelView>,
) -> bool {
    let names = family_taking(r, o).label_names;
    name == o.name && key_for(names, labels) is Some && key_for(names, labels) == key_for(
        names,
        o.labels,
    )
}

/// The state of a series after an observation of it.
pub open spec fn state_after(before: Option<SeriesState>, o: ObservationView) -> Option<
    SeriesState,
> {
    match before {
        Some(state) => next_state(state, o.value),
        None => Some(first_state(o.kind, o.value)),
    }
}

/// An observation that the registry takes changes the state of its own
/// series, and of no other.
pub proof fn lemma_one_series_changes(
    r: Seq<FamilyView>,
    o: ObservationView,
    name: Seq<u8>,
    labels: Seq<LabelView>,
)
    requires
        registry_wf(r),
        applied(r, o) is Ok,
    ensures
        series_state(applied(r, o)->Ok_0, name, labels) == if is_series_of(r, o, name, labels) {
            state_after(series_state(r, name, labels), o)
        } else {
            series_state(r, name, labels)
        },
{
    let s = applied(r, o)->Ok_0;
    lemma_applied(r, o);
    if name != o.name {
        if has_family(r, name) {
            lemma_families_kept(r, o, name);
        } else {
            lemma_families_brought(r, o, name);
        }
    } else {
        let i = rank(r, o.name);
        lemma_rank(r, o.name);
        let f = family_taking(r, o);
        let g = family_applied(f, o)->Ok_0;
        lemma_family_applied(f, o);
        if has_family(r, o.name) {
            assert(s[i] == g);
        } else {
            r.insert_ensures(i, g);
        }
        lemma_rank_is_place(s, i);
        let taken = key_for(f.label_names, o.labels)->0;
        let j = series_index(f.series, taken);
        lemma_series_index(f.series, taken);
        assert(g.series[j].key == taken);
        lemma_series_index_is_place(g.series, j);
        if let Some(key) = key_for(f.label_names, labels) {
            if key != taken {
                lemma_series_index(f.series, key);
                if j < f.series.len() {
                    lemma_series_index_by_keys(f.series, g.series, key);
                } else {
                    lemma_series_index_push(f.series, g.series[j], key);
                    assert(g.series =~= f.series.push(g.series[j]));
                }
            }
        }
    }
}

/// Whether two lists hold the same labels, in whatever order.
pub open spec fn same_labels(a: Seq<LabelView>, b: Seq<LabelView>) -> bool {
    a.to_multiset() == b.to_multiset()
}

/// The value found for a name belongs to a label of that name; where none
/// is found, no label has the name.
pub proof fn lemma_value_named(labels: Seq<LabelView>, name: Seq<u8>)
    ensures
        match value_named(labels, name) {
            Some(value) => labels.contains(LabelView { name, value }),
            None => forall|i: int| 0 <= i < labels.len() ==> (#[trigger] labels[i]).name != name,
        },
    decreases labels.len(),
{
    if labels.len() > 0 {
        if labels[0].name == name {
            assert(labels[0] == LabelView { name, value: labels[0].value });
        } else {
            let rest = labels.skip(1);
            lemma_value_named(rest, name);
            match value_named(rest, name) {
                Some(value) => {
                    let found = LabelView { name, value };
                    let i = choose|i: int| 0 <= i < rest.len() && rest[i] == found;
                    assert(labels[i + 1] == found);
                },
                None => {
                    assert forall|i: int| 0 <= i < labels.len() implies (#[trigger] labels[i]).name
                        != name by {
                        if i > 0 {
                            assert(labels[i] == rest[i - 1]);
                        }
                    }
                },
            }
        }
    }
}

/// Among labels of different names, the value found for the name of a label
/// is the value of that label.
pub proof fn lemma_value_of_label(labels: Seq<LabelView>, i: int)
    requires
        all_different(label_names_of(labels)),
        0 <= i < labels.len(),
    ensures
        value_named(labels, labels[i].name) == Some(labels[i].value),
    decreases labels.len(),
{
    let names = label_names_of(labels);
    if i > 0 {
        assert(names[0] != names[i]);
        let rest = labels.skip(1);
        let others = label_names_of(rest);
        assert forall|a: int, b: int| 0 <= a < b < others.len() implies #[trigger] others[a]
            != #[trigger] others[b] by {
            assert(names[a + 1] != names[b + 1]);
        }
        assert(rest[i - 1] == labels[i]);
        lemma_value_of_label(rest, i - 1);
    }
}

/// The order of the labels of an observation does not matter to the key of
/// its series.
pub proof fn lemma_label_order_is_immaterial(
    names: Seq<Seq<u8>>,
    a: Seq<LabelView>,
    b: Seq<LabelView>,
)
    requires
        all_different(label_names_of(a)),
        all_different(label_names_of(b)),
        same_labels(a, b),
    ensures
        key_for(names, a) == key_for(names, b),
{
    to_multiset_len(a);
    to_multiset_len(b);
    assert forall|name: Seq<u8>| value_named(a, name) == value_named(b, name) by {
        lemma_value_named(a, name);
        lemma_value_named(b, name);
        if let Some(value) = value_named(a, name) {
            let found = LabelView { name, value };
            to_multiset_contains(a, found);
            to_multiset_contains(b, found);
            let j = choose|j: int| 0 <= j < b.len() && b[j] == found;
            lemma_value_of_label(b, j);
        } else if let Some(value) = value_named(b, name) {
            let found = LabelView { name, value };
            to_multiset_contains(a, found);
            to_multiset_contains(b, found);
            let i = choose|i: int| 0 <= i < a.len() && a[i] == found;
            assert(a[i].name == name);
        }
    }
    if key_for(names, a) is Some {
        assert(key_for(names, a)->0 =~= key_for(names, b)->0);
    }
}

/// Observations that differ in the order of their labels only are the same
/// to a registry that has their metric.
pub proof fn lemma_label_order_same_series(
    r: Seq<FamilyView>,
    first: ObservationView,
    second: ObservationView,
)
    requires
        has_family(r, first.name),
        second.name == first.name,
        second.kind == first.kind,
        second.value == first.value,
        all_different(label_names_of(first.labels)),
        all_different(label_names_of(second.labels)),
        same_labels(first.labels, second.labels),
    ensures
        applied(r, first) == applied(r, second),
{
    lemma_label_order_is_immaterial(r[rank(r, first.name)].label_names, first.labels, second.labels);
}

} // verus!
