//! The registry: metric families by name, each with its series by label
//! values.
//!
//! An observation names a metric, its kind and its labels. The first
//! observation of a name makes the family, with the observation's kind and
//! label names, unless the family was registered before. Each later one has
//! to agree with the family on both. The label values, put in the order of
//! the family's label names, are the key of the series that the observation
//! updates.

use vstd::prelude::*;
use crate::bytes::{Precedence, bytes_eq, compare_bytes, copy_bytes, lex_lt};
use crate::bytes::{lemma_lex_irreflexive, lemma_lex_total, lemma_lex_transitive};
use crate::histogram::{Histogram, HistogramView};
use crate::histogram::{can_observe, empty_histogram, histogram_wf, observed};

verus! {

/// How the observations of a metric are aggregated.
#[derive(Clone, Copy, Debug, PartialEq, Eq, Structural)]
pub enum MetricKind {
    /// A total that only grows.
    Counter,
    /// A sum, a count and cumulative buckets.
    Histogram,
}

/// Why the registry did not take an observation.
#[derive(Clone, Copy, Debug, PartialEq, Eq, Structural)]
pub enum ApplyError {
    /// The metric exists with the other kind.
    KindConflict,
    /// The labels of the observation are not those of the metric.
    LabelMismatch,
    /// The observation names a label twice.
    DuplicateLabel,
    /// A total, a sum or a count would no longer fit.
    Overflow,
}

/// Why the registry did not take the declaration of a metric.
#[derive(Clone, Copy, Debug, PartialEq, Eq, Structural)]
pub enum RegisterError {
    /// There is a metric of that name.
    NameTaken,
    /// The declaration names a label twice.
    DuplicateLabel,
}

/// One label of an observation.
#[derive(Clone, Debug, PartialEq, Eq)]
pub struct Label {
    pub name: Vec<u8>,
    pub value: Vec<u8>,
}

/// A label as a mathematical value.
pub struct LabelView {
    pub name: Seq<u8>,
    pub value: Seq<u8>,
}

impl View for Label {
    type V = LabelView;

    open spec fn view(&self) -> LabelView {
        LabelView { name: self.name@, value: self.value@ }
    }
}

/// Labels as mathematical values.
pub open spec fn labels_view(labels: Seq<Label>) -> Seq<LabelView> {
    labels.map_values(|l: Label| l@)
}

/// One observation of one metric: for a counter the amount to add, for a
/// histogram the value to record.
#[derive(Clone, Debug, PartialEq, Eq)]
pub struct MetricObservation {
    pub name: Vec<u8>,
    pub kind: MetricKind,
    pub labels: Vec<Label>,
    pub value: u64,
}

/// An observation as a mathematical value.
pub struct ObservationView {
    pub name: Seq<u8>,
    pub kind: MetricKind,
    pub labels: Seq<LabelView>,
    pub value: nat,
}

impl View for MetricObservation {
    type V = ObservationView;

    open spec fn view(&self) -> ObservationView {
        ObservationView {
            name: self.name@,
            kind: self.kind,
            labels: labels_view(self.labels@),
            value: self.value as nat,
        }
    }
}

/// The state of one series.
#[derive(Clone, Debug, PartialEq, Eq)]
pub enum SeriesValue {
    Counter(u64),
    Histogram(Histogram),
}

/// The state of a series as a mathematical value.
pub enum SeriesState {
    Counter(nat),
    Histogram(HistogramView),
}

impl View for SeriesValue {
    type V = SeriesState;

    open spec fn view(&self) -> SeriesState {
        match *self {
            SeriesValue::Counter(total) => SeriesState::Counter(total as nat),
            SeriesValue::Histogram(h) => SeriesState::Histogram(h@),
        }
    }
}

/// One series: the values of its labels, in the order of the family's label
/// names, and its state.
#[derive(Clone, Debug, PartialEq, Eq)]
pub struct Series {
    pub key: Vec<Vec<u8>>,
    pub value: SeriesValue,
}

/// A series as a mathematical value.
pub struct SeriesView {
    pub key: Seq<Seq<u8>>,
    pub state: SeriesState,
}

/// Byte strings as mathematical values.
pub open spec fn key_view(key: Seq<Vec<u8>>) -> Seq<Seq<u8>> {
    key.map_values(|v: Vec<u8>| v@)
}

impl View for Series {
    type V = SeriesView;

    open spec fn view(&self) -> SeriesView {
        SeriesView { key: key_view(self.key@), state: self.value@ }
    }
}

/// Series as mathematical values.
pub open spec fn series_views(series: Seq<Series>) -> Seq<SeriesView> {
    series.map_values(|s: Series| s@)
}

/// One metric with all its series, in the order in which they first came.
#[derive(Clone, Debug, PartialEq, Eq)]
pub struct Family {
    pub name: Vec<u8>,
    pub help: Vec<u8>,
    pub kind: MetricKind,
    pub label_names: Vec<Vec<u8>>,
    pub series: Vec<Series>,
}

/// A family as a mathematical value.
pub struct FamilyView {
    pub name: Seq<u8>,
    pub help: Seq<u8>,
    pub kind: MetricKind,
    pub label_names: Seq<Seq<u8>>,
    pub series: Seq<SeriesView>,
}

impl View for Family {
    type V = FamilyView;

    open spec fn view(&self) -> FamilyView {
        FamilyView {
            name: self.name@,
            help: self.help@,
            kind: self.kind,
            label_names: key_view(self.label_names@),
            series: series_views(self.series@),
        }
    }
}

/// Families as mathematical values.
pub open spec fn family_views(families: Seq<Family>) -> Seq<FamilyView> {
    families.map_values(|f: Family| f@)
}

/// The kind of metric that a state belongs to.
pub open spec fn kind_of(state: SeriesState) -> MetricKind {
    match state {
        SeriesState::Counter(_) => MetricKind::Counter,
        SeriesState::Histogram(_) => MetricKind::Histogram,
    }
}

/// A histogram state is cumulative; a counter state is any total.
pub open spec fn state_wf(state: SeriesState) -> bool {
    match state {
        SeriesState::Counter(_) => true,
        SeriesState::Histogram(h) => histogram_wf(h),
    }
}

/// The names of the labels, in their order.
pub open spec fn label_names_of(labels: Seq<LabelView>) -> Seq<Seq<u8>> {
    labels.map_values(|l: LabelView| l.name)
}

/// Whether no name comes twice.
pub open spec fn all_different(names: Seq<Seq<u8>>) -> bool {
    forall|i: int, j: int| 0 <= i < j < names.len() ==> #[trigger] names[i] != #[trigger] names[j]
}

/// No label name of a family comes twice; every series is of the family's
/// kind and has one value for each label name, and no two series have the
/// same values.
pub open spec fn family_wf(f: FamilyView) -> bool {
    &&& all_different(f.label_names)
    &&& forall|i: int|
        0 <= i < f.series.len() ==> {
            &&& kind_of(#[trigger] f.series[i].state) == f.kind
            &&& state_wf(f.series[i].state)
            &&& f.series[i].key.len() == f.label_names.len()
        }
    &&& forall|i: int, j: int|
        0 <= i < j < f.series.len() ==> (#[trigger] f.series[i]).key != (#[trigger] f.series[j]).key
}

/// The families stand in the order of their names, and no name comes twice.
pub open spec fn registry_wf(r: Seq<FamilyView>) -> bool {
    &&& forall|i: int| 0 <= i < r.len() ==> family_wf(#[trigger] r[i])
    &&& forall|i: int, j: int|
        0 <= i < j < r.len() ==> lex_lt((#[trigger] r[i]).name, (#[trigger] r[j]).name)
}

/// The value of the first label of that name.
pub open spec fn value_named(labels: Seq<LabelView>, name: Seq<u8>) -> Option<Seq<u8>>
    decreases labels.len(),
{
    if labels.len() == 0 {
        None
    } else if labels[0].name == name {
        Some(labels[0].value)
    } else {
        value_named(labels.skip(1), name)
    }
}

/// Whether there is a label for each of the names.
pub open spec fn names_covered(label_names: Seq<Seq<u8>>, labels: Seq<LabelView>) -> bool {
    forall|i: int|
        0 <= i < label_names.len() ==> value_named(labels, #[trigger] label_names[i]) is Some
}

/// The values of an observation's labels in the order of a family's label
/// names: the key of its series. There is none where the observation has
/// more or fewer labels than the family, or lacks one of its names.
pub open spec fn key_for(label_names: Seq<Seq<u8>>, labels: Seq<LabelView>) -> Option<
    Seq<Seq<u8>>,
> {
    if labels.len() == label_names.len() && names_covered(label_names, labels) {
        Some(Seq::new(label_names.len(), |i: int| value_named(labels, label_names[i])->0))
    } else {
        None
    }
}

/// The place of the first series with that key, or the number of series
/// where there is none.
pub open spec fn series_index(series: Seq<SeriesView>, key: Seq<Seq<u8>>) -> int
    decreases series.len(),
{
    if series.len() > 0 && series[0].key != key {
        1 + series_index(series.skip(1), key)
    } else {
        0
    }
}

/// The state of a series after its first observation.
pub open spec fn first_state(kind: MetricKind, value: nat) -> SeriesState {
    match kind {
        MetricKind::Counter => SeriesState::Counter(value),
        MetricKind::Histogram => SeriesState::Histogram(observed(empty_histogram(), value)),
    }
}

/// The state of a series after one more observation, unless it would no
/// longer fit.
pub open spec fn next_state(state: SeriesState, value: nat) -> Option<SeriesState> {
    match state {
        SeriesState::Counter(total) => if total + value <= u64::MAX {
            Some(SeriesState::Counter(total + value))
        } else {
            None
        },
        SeriesState::Histogram(h) => if can_observe(h, value) {
            Some(SeriesState::Histogram(observed(h, value)))
        } else {
            None
        },
    }
}

/// A family after an observation of its metric.
pub open spec fn family_applied(f: FamilyView, o: ObservationView) -> Result<
    FamilyView,
    ApplyError,
> {
    if f.kind != o.kind {
        Err(ApplyError::KindConflict)
    } else {
        match key_for(f.label_names, o.labels) {
            None => Err(ApplyError::LabelMismatch),
            Some(key) => {
                let j = series_index(f.series, key);
                if j < f.series.len() {
                    match next_state(f.series[j].state, o.value) {
                        None => Err(ApplyError::Overflow),
                        Some(state) => Ok(
                            FamilyView {
                                name: f.name,
                                help: f.help,
                                kind: f.kind,
                                label_names: f.label_names,
                                series: f.series.update(j, SeriesView { key, state }),
                            },
                        ),
                    }
                } else {
                    Ok(
                        FamilyView {
                            name: f.name,
                            help: f.help,
                            kind: f.kind,
                            label_names: f.label_names,
                            series: f.series.push(
                                SeriesView { key, state: first_state(f.kind, o.value) },
                            ),
                        },
                    )
                }
            },
        }
    }
}

/// The family that the first observation of a metric makes, before it is
/// applied: no help text, no series yet.
pub open spec fn family_for(o: ObservationView) -> FamilyView {
    FamilyView {
        name: o.name,
        help: Seq::empty(),
        kind: o.kind,
        label_names: label_names_of(o.labels),
        series: Seq::empty(),
    }
}

/// How many families at the start of the registry have a name before `name`.
pub open spec fn rank(r: Seq<FamilyView>, name: Seq<u8>) -> int
    decreases r.len(),
{
    if r.len() > 0 && lex_lt(r[0].name, name) {
        1 + rank(r.skip(1), name)
    } else {
        0
    }
}

/// Whether the family at the rank of a name has that name.
pub open spec fn has_family(r: Seq<FamilyView>, name: Seq<u8>) -> bool {
    rank(r, name) < r.len() && r[rank(r, name)].name == name
}

/// The state of the series that an observation with this name and these
/// labels would update, if there is one.
pub open spec fn series_state(
    r: Seq<FamilyView>,
    name: Seq<u8>,
    labels: Seq<LabelView>,
) -> Option<SeriesState> {
    if has_family(r, name) {
        let f = r[rank(r, name)];
        match key_for(f.label_names, labels) {
            Some(key) => {
                let j = series_index(f.series, key);
                if j < f.series.len() {
                    Some(f.series[j].state)
                } else {
                    None
                }
            },
            None => None,
        }
    } else {
        None
    }
}

/// The total of a counter series, zero while there is none.
pub open spec fn counter_total(r: Seq<FamilyView>, name: Seq<u8>, labels: Seq<LabelView>) -> nat {
    match series_state(r, name, labels) {
        Some(SeriesState::Counter(total)) => total,
        _ => 0,
    }
}

/// The histogram of a series, empty while there is none.
pub open spec fn histogram_state(
    r: Seq<FamilyView>,
    name: Seq<u8>,
    labels: Seq<LabelView>,
) -> HistogramView {
    match series_state(r, name, labels) {
        Some(SeriesState::Histogram(h)) => h,
        _ => empty_histogram(),
    }
}

/// The registry after an observation, or why it does not take it.
pub open spec fn applied(r: Seq<FamilyView>, o: ObservationView) -> Result<
    Seq<FamilyView>,
    ApplyError,
> {
    let i = rank(r, o.name);
    if !all_different(label_names_of(o.labels)) {
        Err(ApplyError::DuplicateLabel)
    } else if has_family(r, o.name) {
        match family_applied(r[i], o) {
            Ok(f) => Ok(r.update(i, f)),
            Err(e) => Err(e),
        }
    } else {
        match family_applied(family_for(o), o) {
            Ok(f) => Ok(r.insert(i, f)),
            Err(e) => Err(e),
        }
    }
}

/// A metric as it is declared: without series.
pub open spec fn declared(
    name: Seq<u8>,
    help: Seq<u8>,
    kind: MetricKind,
    label_names: Seq<Seq<u8>>,
) -> FamilyView {
    FamilyView { name, help, kind, label_names, series: Seq::empty() }
}

/// The registry with one more family, or why it does not take it.
pub open spec fn registered(r: Seq<FamilyView>, f: FamilyView) -> Result<
    Seq<FamilyView>,
    RegisterError,
> {
    if !all_different(f.label_names) {
        Err(RegisterError::DuplicateLabel)
    } else if has_family(r, f.name) {
        Err(RegisterError::NameTaken)
    } else {
        Ok(r.insert(rank(r, f.name), f))
    }
}

/// The rank of a name is a place in the registry: the families before it
/// have names before the name, the family at it has not.
pub proof fn lemma_rank(r: Seq<FamilyView>, name: Seq<u8>)
    ensures
        0 <= rank(r, name) <= r.len(),
        forall|k: int| 0 <= k < rank(r, name) ==> lex_lt((#[trigger] r[k]).name, name),
        rank(r, name) < r.len() ==> !lex_lt(r[rank(r, name)].name, name),
    decreases r.len(),
{
    if r.len() > 0 && lex_lt(r[0].name, name) {
        let t = r.skip(1);
        lemma_rank(t, name);
        assert forall|k: int| 0 <= k < rank(r, name) implies lex_lt(
            (#[trigger] r[k]).name,
            name,
        ) by {
            if k > 0 {
                assert(r[k] == t[k - 1]);
            }
        }
    }
}

/// In a well-formed registry a name belongs to the family at its rank or to
/// none, and a family can be put at the rank of a name that is free.
pub proof fn lemma_rank_sorted(r: Seq<FamilyView>, name: Seq<u8>)
    requires
        registry_wf(r),
    ensures
        has_family(r, name) <==> exists|k: int| 0 <= k < r.len() && (#[trigger] r[k]).name == name,
        !has_family(r, name) ==> forall|k: int|
            rank(r, name) <= k < r.len() ==> lex_lt(name, (#[trigger] r[k]).name),
{
    lemma_rank(r, name);
    let i = rank(r, name);
    if i < r.len() {
        lemma_lex_total(r[i].name, name);
    }
    assert forall|k: int| 0 <= k < r.len() && (#[trigger] r[k]).name == name implies has_family(
        r,
        name,
    ) by {
        lemma_lex_irreflexive(name);
        if k < i {
            assert(lex_lt(r[k].name, name));
        } else if k > i {
            assert(lex_lt(r[i].name, r[k].name));
            if r[i].name != name {
                lemma_lex_transitive(name, r[i].name, r[k].name);
            }
        }
    }
    if !has_family(r, name) {
        assert forall|k: int| i <= k < r.len() implies lex_lt(name, (#[trigger] r[k]).name) by {
            if k > i {
                assert(lex_lt(r[i].name, r[k].name));
                lemma_lex_transitive(name, r[i].name, r[k].name);
            }
        }
    }
}

/// The place that `series_index` gives is that of a series with the key, and
/// no series before it has the key.
pub proof fn lemma_series_index(series: Seq<SeriesView>, key: Seq<Seq<u8>>)
    ensures
        0 <= series_index(series, key) <= series.len(),
        forall|k: int| 0 <= k < series_index(series, key) ==> (#[trigger] series[k]).key != key,
        series_index(series, key) < series.len() ==> series[series_index(series, key)].key == key,
    decreases series.len(),
{
    if series.len() > 0 && series[0].key != key {
        let t = series.skip(1);
        lemma_series_index(t, key);
        assert forall|k: int| 0 <= k < series_index(series, key) implies (#[trigger] series[k]).key
            != key by {
            if k > 0 {
                assert(series[k] == t[k - 1]);
            }
        }
    }
}

/// In a well-formed registry the rank of a family's name is the family's
/// place.
pub proof fn lemma_rank_is_place(r: Seq<FamilyView>, k: int)
    requires
        registry_wf(r),
        0 <= k < r.len(),
    ensures
        rank(r, r[k].name) == k,
        has_family(r, r[k].name),
{
    let name = r[k].name;
    let i = rank(r, name);
    lemma_rank(r, name);
    lemma_lex_irreflexive(name);
    if i < k {
        assert(lex_lt(r[i].name, r[k].name));
    } else if i > k {
        assert(lex_lt(r[k].name, name));
    }
}

/// Among series with different keys, the place that `series_index` gives
/// for the key of a series is that series' place.
pub proof fn lemma_series_index_is_place(series: Seq<SeriesView>, j: int)
    requires
        0 <= j < series.len(),
        forall|a: int, b: int|
            0 <= a < b < series.len() ==> (#[trigger] series[a]).key != (#[trigger] series[b]).key,
    ensures
        series_index(series, series[j].key) == j,
{
    let key = series[j].key;
    let i = series_index(series, key);
    lemma_series_index(series, key);
    if i < j {
        assert(series[i].key != series[j].key);
    } else if i > j {
        assert(series[j].key != key);
    }
}

/// Where a key stands among series depends on their keys alone.
pub proof fn lemma_series_index_by_keys(a: Seq<SeriesView>, b: Seq<SeriesView>, key: Seq<Seq<u8>>)
    requires
        a.len() == b.len(),
        forall|i: int| 0 <= i < a.len() ==> (#[trigger] a[i]).key == b[i].key,
    ensures
        series_index(a, key) == series_index(b, key),
    decreases a.len(),
{
    if a.len() > 0 {
        assert(a[0].key == b[0].key);
        if a[0].key != key {
            assert forall|i: int| 0 <= i < a.skip(1).len() implies (#[trigger] a.skip(1)[i]).key
                == b.skip(1)[i].key by {
                assert(a[i + 1].key == b[i + 1].key);
            }
            lemma_series_index_by_keys(a.skip(1), b.skip(1), key);
        }
    }
}

/// Where a key stands after one more series has come.
pub proof fn lemma_series_index_push(a: Seq<SeriesView>, x: SeriesView, key: Seq<Seq<u8>>)
    ensures
        series_index(a.push(x), key) == if series_index(a, key) < a.len() {
            series_index(a, key)
        } else if x.key == key {
            a.len() as int
        } else {
            a.len() as int + 1
        },
    decreases a.len(),
{
    lemma_series_index(a, key);
    if a.len() > 0 {
        assert(a.push(x)[0] == a[0]);
        if a[0].key != key {
            assert(a.push(x).skip(1) =~= a.skip(1).push(x));
            lemma_series_index_push(a.skip(1), x, key);
        }
    } else {
        let none = Seq::<SeriesView>::empty();
        assert(a.push(x)[0] == x);
        assert(a.push(x).skip(1) =~= none);
        assert(series_index(none, key) == 0);
    }
}

/// A family stays well formed under an observation.
pub proof fn lemma_family_applied(f: FamilyView, o: ObservationView)
    requires
        family_wf(f),
    ensures
        family_applied(f, o) matches Ok(g) ==> family_wf(g) && g.name == f.name,
{
    if let Ok(g) = family_applied(f, o) {
        let key = key_for(f.label_names, o.labels)->0;
        let j = series_index(f.series, key);
        lemma_series_index(f.series, key);
        if j < f.series.len() {
            assert(state_wf(f.series[j].state));
        }
        assert forall|a: int, b: int| 0 <= a < b < g.series.len() implies (
        #[trigger] g.series[a]).key != (#[trigger] g.series[b]).key by {
            if j < f.series.len() {
                assert(f.series[a].key != f.series[b].key);
            } else if b < f.series.len() {
                assert(f.series[a].key != f.series[b].key);
            } else {
                assert(f.series[a].key != key);
            }
        }
    }
}

/// A registry stays well formed under an observation.
pub proof fn lemma_applied(r: Seq<FamilyView>, o: ObservationView)
    requires
        registry_wf(r),
    ensures
        applied(r, o) matches Ok(s) ==> registry_wf(s),
{
    if let Ok(s) = applied(r, o) {
        let i = rank(r, o.name);
        lemma_rank(r, o.name);
        lemma_rank_sorted(r, o.name);
        if has_family(r, o.name) {
            lemma_family_applied(r[i], o);
        } else {
            lemma_family_applied(family_for(o), o);
            lemma_insert_sorted(r, family_applied(family_for(o), o)->Ok_0);
        }
    }
}

/// An observation that the registry takes keeps every family that is in
/// the registry, with its help text, its kind and its label names, and
/// leaves the families of other names as they are.
pub proof fn lemma_families_kept(r: Seq<FamilyView>, o: ObservationView, name: Seq<u8>)
    requires
        registry_wf(r),
        applied(r, o) is Ok,
        has_family(r, name),
    ensures
        ({
            let s = applied(r, o)->Ok_0;
            let f = r[rank(r, name)];
            let g = s[rank(s, name)];
            &&& has_family(s, name)
            &&& g.help == f.help
            &&& g.kind == f.kind
            &&& g.label_names == f.label_names
            &&& name != o.name ==> g == f
        }),
{
    let s = applied(r, o)->Ok_0;
    let k = rank(r, name);
    let i = rank(r, o.name);
    lemma_applied(r, o);
    lemma_rank(r, name);
    lemma_rank(r, o.name);
    if has_family(r, o.name) {
        lemma_family_applied(r[i], o);
        if k != i {
            assert(s[k] == r[k]);
        }
        lemma_rank_is_place(s, k);
    } else {
        let g = family_applied(family_for(o), o)->Ok_0;
        r.insert_ensures(i, g);
        let moved = if k < i {
            k
        } else {
            k + 1
        };
        assert(s[moved] == r[k]);
        lemma_rank_is_place(s, moved);
    }
}

/// An observation that the registry takes brings no family but that of its
/// own name.
pub proof fn lemma_families_brought(r: Seq<FamilyView>, o: ObservationView, name: Seq<u8>)
    requires
        registry_wf(r),
        applied(r, o) is Ok,
        !has_family(r, name),
        name != o.name,
    ensures
        !has_family(applied(r, o)->Ok_0, name),
{
    let s = applied(r, o)->Ok_0;
    let i = rank(r, o.name);
    lemma_applied(r, o);
    lemma_rank(r, o.name);
    lemma_rank_sorted(r, name);
    lemma_rank_sorted(s, name);
    if has_family(r, o.name) {
        lemma_family_applied(r[i], o);
        assert forall|k: int| 0 <= k < s.len() implies (#[trigger] s[k]).name != name by {
            if k != i {
                assert(s[k] == r[k]);
            }
            assert(r[k].name != name);
        }
    } else {
        let g = family_applied(family_for(o), o)->Ok_0;
        lemma_family_applied(family_for(o), o);
        r.insert_ensures(i, g);
        assert forall|k: int| 0 <= k < s.len() implies (#[trigger] s[k]).name != name by {
            if k < i {
                assert(s[k] == r[k]);
                assert(r[k].name != name);
            } else if k > i {
                assert(s[(k - 1) + 1] == r[k - 1]);
                assert(r[k - 1].name != name);
            }
        }
    }
}

/// A registry stays well formed when a well-formed family is put at the
/// rank of its name, if that name is free.
pub proof fn lemma_insert_sorted(r: Seq<FamilyView>, f: FamilyView)
    requires
        registry_wf(r),
        family_wf(f),
        !has_family(r, f.name),
    ensures
        registry_wf(r.insert(rank(r, f.name), f)),
{
    let i = rank(r, f.name);
    lemma_rank(r, f.name);
    lemma_rank_sorted(r, f.name);
    r.insert_ensures(i, f);
    let s = r.insert(i, f);
    assert forall|k: int| 0 <= k < s.len() implies family_wf(#[trigger] s[k]) by {
        if k < i {
            assert(s[k] == r[k]);
        } else if k > i {
            assert(s[(k - 1) + 1] == r[k - 1]);
        }
    }
    assert forall|a: int, b: int| 0 <= a < b < s.len() implies lex_lt(
        (#[trigger] s[a]).name,
        (#[trigger] s[b]).name,
    ) by {
        if a > i {
            assert(s[(a - 1) + 1] == r[a - 1]);
        }
        if b > i {
            assert(s[(b - 1) + 1] == r[b - 1]);
        }
        if a < i && b < i {
            assert(lex_lt(r[a].name, r[b].name));
        } else if a < i && b == i {
            assert(lex_lt(r[a].name, f.name));
        } else if a < i && b > i {
            assert(lex_lt(r[a].name, r[b - 1].name));
        } else if a == i {
            assert(lex_lt(f.name, r[b - 1].name));
        } else {
            assert(lex_lt(r[a - 1].name, r[b - 1].name));
        }
    }
}

/// Tells whether two keys are the same.
fn keys_equal(a: &Vec<Vec<u8>>, b: &Vec<Vec<u8>>) -> (r: bool)
    ensures
        r == (key_view(a@) == key_view(b@)),
{
    if a.len() != b.len() {
        assert(key_view(a@).len() != key_view(b@).len());
        return false;
    }
    let mut i: usize = 0;
    while i < a.len()
        invariant
            i <= a@.len(),
            a@.len() == b@.len(),
            forall|k: int| 0 <= k < i ==> (#[trigger] a@[k])@ == b@[k]@,
        decreases a@.len() - i,
    {
        if !bytes_eq(a[i].as_slice(), b[i].as_slice()) {
            assert(key_view(a@)[i as int] != key_view(b@)[i as int]);
            return false;
        }
        i = i + 1;
    }
    assert(key_view(a@) =~= key_view(b@));
    true
}

/// A copy of a key.
fn copy_key(key: &Vec<Vec<u8>>) -> (r: Vec<Vec<u8>>)
    ensures
        key_view(r@) == key_view(key@),
{
    let mut r: Vec<Vec<u8>> = Vec::new();
    let mut i: usize = 0;
    while i < key.len()
        invariant
            i <= key@.len(),
            r@.len() == i,
            forall|k: int| 0 <= k < i ==> (#[trigger] r@[k])@ == key@[k]@,
        decreases key@.len() - i,
    {
        r.push(copy_bytes(key[i].as_slice()));
        i = i + 1;
    }
    assert(key_view(r@) =~= key_view(key@));
    r
}

/// Looks for the first label of that name.
fn find_value(labels: &Vec<Label>, name: &[u8]) -> (r: Option<usize>)
    ensures
        match r {
            Some(i) => i < labels@.len() && value_named(labels_view(labels@), name@) == Some(
                labels@[i as int].value@,
            ),
            None => value_named(labels_view(labels@), name@) is None,
        },
{
    let ghost all = labels_view(labels@);
    let mut i: usize = 0;
    assert(all.skip(0) =~= all);
    while i < labels.len()
        invariant
            i <= labels@.len(),
            all == labels_view(labels@),
            value_named(all, name@) == value_named(all.skip(i as int), name@),
        decreases labels@.len() - i,
    {
        assert(all.skip(i as int)[0] == labels@[i as int]@);
        if bytes_eq(labels[i].name.as_slice(), name) {
            return Some(i);
        }
        assert(all.skip(i as int).skip(1) =~= all.skip(i + 1));
        i = i + 1;
    }
    None
}

/// Puts the values of the labels in the order of the label names.
fn make_key(label_names: &Vec<Vec<u8>>, labels: &Vec<Label>) -> (r: Option<Vec<Vec<u8>>>)
    ensures
        match key_for(key_view(label_names@), labels_view(labels@)) {
            Some(k) => r matches Some(x) && key_view(x@) == k,
            None => r is None,
        },
{
    if labels.len() != label_names.len() {
        return None;
    }
    let ghost names = key_view(label_names@);
    let ghost all = labels_view(labels@);
    let mut key: Vec<Vec<u8>> = Vec::new();
    let mut i: usize = 0;
    while i < label_names.len()
        invariant
            i <= label_names@.len(),
            names == key_view(label_names@),
            all == labels_view(labels@),
            key@.len() == i,
            forall|k: int|
                0 <= k < i ==> value_named(all, #[trigger] names[k]) is Some && key@[k]@
                    == value_named(all, names[k])->0,
        decreases label_names@.len() - i,
    {
        match find_value(labels, label_names[i].as_slice()) {
            None => {
                assert(value_named(all, names[i as int]) is None);
                return None;
            },
            Some(j) => {
                key.push(copy_bytes(labels[j].value.as_slice()));
            },
        }
        i = i + 1;
    }
    assert(key_view(key@) =~= key_for(names, all)->0);
    Some(key)
}

/// Tells whether no name comes twice.
fn names_differ(names: &Vec<Vec<u8>>) -> (r: bool)
    ensures
        r == all_different(key_view(names@)),
{
    let ghost all = key_view(names@);
    let mut j: usize = 0;
    while j < names.len()
        invariant
            j <= names@.len(),
            all == key_view(names@),
            forall|a: int, b: int| 0 <= a < b < j ==> #[trigger] all[a] != #[trigger] all[b],
        decreases names@.len() - j,
    {
        let mut i: usize = 0;
        while i < j
            invariant
                i <= j < names@.len(),
                all == key_view(names@),
                forall|a: int| 0 <= a < i ==> #[trigger] all[a] != all[j as int],
            decreases j - i,
        {
            if bytes_eq(names[i].as_slice(), names[j].as_slice()) {
                assert(all[i as int] == all[j as int]);
                return false;
            }
            i = i + 1;
        }
        j = j + 1;
    }
    true
}

/// Tells whether no label name comes twice.
fn labels_differ(labels: &Vec<Label>) -> (r: bool)
    ensures
        r == all_different(label_names_of(labels_view(labels@))),
{
    let ghost all = label_names_of(labels_view(labels@));
    let mut j: usize = 0;
    while j < labels.len()
        invariant
            j <= labels@.len(),
            all == label_names_of(labels_view(labels@)),
            forall|a: int, b: int| 0 <= a < b < j ==> #[trigger] all[a] != #[trigger] all[b],
        decreases labels@.len() - j,
    {
        let mut i: usize = 0;
        while i < j
            invariant
                i <= j < labels@.len(),
                all == label_names_of(labels_view(labels@)),
                forall|a: int| 0 <= a < i ==> #[trigger] all[a] != all[j as int],
            decreases j - i,
        {
            if bytes_eq(labels[i].name.as_slice(), labels[j].name.as_slice()) {
                assert(all[i as int] == all[j as int]);
                return false;
            }
            i = i + 1;
        }
        j = j + 1;
    }
    true
}

/// The names of the labels, in their order.
fn names_of(labels: &Vec<Label>) -> (r: Vec<Vec<u8>>)
    ensures
        key_view(r@) == label_names_of(labels_view(labels@)),
{
    let mut r: Vec<Vec<u8>> = Vec::new();
    let mut i: usize = 0;
    while i < labels.len()
        invariant
            i <= labels@.len(),
            r@.len() == i,
            forall|k: int| 0 <= k < i ==> (#[trigger] r@[k])@ == labels@[k].name@,
        decreases labels@.len() - i,
    {
        r.push(copy_bytes(labels[i].name.as_slice()));
        i = i + 1;
    }
    assert(key_view(r@) =~= label_names_of(labels_view(labels@)));
    r
}

impl SeriesValue {
    /// A copy of the state.
    pub fn duplicate(&self) -> (v: SeriesValue)
        ensures
            v@ == self@,
    {
        match self {
            SeriesValue::Counter(total) => SeriesValue::Counter(*total),
            SeriesValue::Histogram(h) => SeriesValue::Histogram(h.duplicate()),
        }
    }
}

impl Series {
    /// A copy of the series.
    pub fn duplicate(&self) -> (s: Series)
        ensures
            s@ == self@,
    {
        Series { key: copy_key(&self.key), value: self.value.duplicate() }
    }
}

impl Family {
    /// A family without series.
    pub fn new(name: &[u8], help: &[u8], kind: MetricKind, label_names: &Vec<Vec<u8>>) -> (f:
        Family)
        ensures
            f@ == (FamilyView {
                name: name@,
                help: help@,
                kind,
                label_names: key_view(label_names@),
                series: Seq::empty(),
            }),
            all_different(key_view(label_names@)) ==> family_wf(f@),
    {
        let f = Family {
            name: copy_bytes(name),
            help: copy_bytes(help),
            kind,
            label_names: copy_key(label_names),
            series: Vec::new(),
        };
        assert(f@.series =~= Seq::<SeriesView>::empty());
        f
    }

    /// A copy of the family with all its series.
    pub fn duplicate(&self) -> (f: Family)
        ensures
            f@ == self@,
    {
        let mut series: Vec<Series> = Vec::new();
        let mut i: usize = 0;
        while i < self.series.len()
            invariant
                i <= self.series@.len(),
                series@.len() == i,
                forall|k: int| 0 <= k < i ==> (#[trigger] series@[k])@ == self.series@[k]@,
            decreases self.series@.len() - i,
        {
            series.push(self.series[i].duplicate());
            i = i + 1;
        }
        assert(series_views(series@) =~= series_views(self.series@));
        Family {
            name: copy_bytes(self.name.as_slice()),
            help: copy_bytes(self.help.as_slice()),
            kind: self.kind,
            label_names: copy_key(&self.label_names),
            series,
        }
    }

    /// Looks for the series with that key.
    fn find_series(&self, key: &Vec<Vec<u8>>) -> (j: usize)
        ensures
            j == series_index(self@.series, key_view(key@)),
            j <= self.series@.len(),
    {
        let ghost all = self@.series;
        let mut j: usize = 0;
        assert(all.skip(0) =~= all);
        while j < self.series.len()
            invariant
                j <= self.series@.len(),
                all == self@.series,
                series_index(all, key_view(key@)) == j + series_index(
                    all.skip(j as int),
                    key_view(key@),
                ),
            decreases self.series@.len() - j,
        {
            assert(all.skip(j as int)[0] == self.series@[j as int]@);
            if keys_equal(&self.series[j].key, key) {
                return j;
            }
            assert(all.skip(j as int).skip(1) =~= all.skip(j + 1));
            j = j + 1;
        }
        j
    }

    /// Takes one observation of this family's metric: updates the series of
    /// its label values, or makes that series. Where the observation is
    /// refused, nothing changes.
    pub fn apply(&mut self, o: &MetricObservation) -> (r: Result<(), ApplyError>)
        ensures
            family_wf(old(self)@) ==> family_wf(final(self)@),
            match family_applied(old(self)@, o@) {
                Ok(f) => r is Ok && final(self)@ == f,
                Err(e) => r == Err::<(), ApplyError>(e) && final(self)@ == old(self)@,
            },
    {
        proof {
            if family_wf(self@) {
                lemma_family_applied(self@, o@);
            }
        }
        if self.kind != o.kind {
            return Err(ApplyError::KindConflict);
        }
        let key = match make_key(&self.label_names, &o.labels) {
            Some(key) => key,
            None => {
                return Err(ApplyError::LabelMismatch);
            },
        };
        let j = self.find_series(&key);
        let ghost before = self@;
        proof {
            lemma_series_index(before.series, key_view(key@));
        }
        if j < self.series.len() {
            let fits = match &self.series[j].value {
                SeriesValue::Counter(total) => *total <= u64::MAX - o.value,
                SeriesValue::Histogram(h) => h.count() < u64::MAX && h.sum() <= u64::MAX - o.value,
            };
            if !fits {
                return Err(ApplyError::Overflow);
            }
            match &mut self.series[j].value {
                SeriesValue::Counter(total) => {
                    *total = *total + o.value;
                },
                SeriesValue::Histogram(h) => {
                    h.observe(o.value);
                },
            }
            assert(self@.series =~= family_applied(before, o@)->Ok_0.series);
        } else {
            let value = match self.kind {
                MetricKind::Counter => SeriesValue::Counter(o.value),
                MetricKind::Histogram => {
                    let mut h = Histogram::new();
                    h.observe(o.value);
                    SeriesValue::Histogram(h)
                },
            };
            self.series.push(Series { key, value });
            assert(self@.series =~= family_applied(before, o@)->Ok_0.series);
        }
        Ok(())
    }
}

/// The registry of all metrics.
pub struct Registry {
    families: Vec<Family>,
}

impl View for Registry {
    type V = Seq<FamilyView>;

    closed spec fn view(&self) -> Seq<FamilyView> {
        family_views(self.families@)
    }
}

/// A copy of the registry's families at one moment.
#[derive(Clone, Debug, PartialEq, Eq)]
pub struct Snapshot {
    pub families: Vec<Family>,
}

impl View for Snapshot {
    type V = Seq<FamilyView>;

    open spec fn view(&self) -> Seq<FamilyView> {
        family_views(self.families@)
    }
}

/// The families that have a series, in their order.
pub open spec fn populated(r: Seq<FamilyView>) -> Seq<FamilyView>
    decreases r.len(),
{
    if r.len() == 0 {
        Seq::empty()
    } else if r.last().series.len() > 0 {
        populated(r.drop_last()).push(r.last())
    } else {
        populated(r.drop_last())
    }
}

/// Families below a name stay below it when those without series are left
/// out.
pub proof fn lemma_populated_below(r: Seq<FamilyView>, name: Seq<u8>)
    requires
        forall|k: int| 0 <= k < r.len() ==> lex_lt((#[trigger] r[k]).name, name),
    ensures
        forall|k: int|
            0 <= k < populated(r).len() ==> lex_lt((#[trigger] populated(r)[k]).name, name),
    decreases r.len(),
{
    if r.len() > 0 {
        let t = r.drop_last();
        assert forall|k: int| 0 <= k < t.len() implies lex_lt((#[trigger] t[k]).name, name) by {
            assert(t[k] == r[k]);
        }
        lemma_populated_below(t, name);
        assert(lex_lt(r[r.len() - 1].name, name));
    }
}

/// A well-formed registry stays well formed when the families without
/// series are left out.
pub proof fn lemma_populated(r: Seq<FamilyView>)
    requires
        registry_wf(r),
    ensures
        registry_wf(populated(r)),
        forall|k: int|
            0 <= k < populated(r).len() ==> (#[trigger] populated(r)[k]).series.len() > 0,
    decreases r.len(),
{
    if r.len() > 0 {
        let t = r.drop_last();
        assert forall|k: int| 0 <= k < t.len() implies family_wf(#[trigger] t[k]) by {
            assert(t[k] == r[k]);
        }
        assert forall|a: int, b: int| 0 <= a < b < t.len() implies lex_lt(
            (#[trigger] t[a]).name,
            (#[trigger] t[b]).name,
        ) by {
            assert(t[a] == r[a] && t[b] == r[b]);
        }
        lemma_populated(t);
        assert forall|k: int| 0 <= k < t.len() implies lex_lt(
            (#[trigger] t[k]).name,
            r.last().name,
        ) by {
            assert(t[k] == r[k]);
            assert(r.last() == r[r.len() - 1]);
        }
        lemma_populated_below(t, r.last().name);
        assert(family_wf(r[r.len() - 1]));
    }
}

impl Registry {
    /// Every registry is in order, at all times.
    #[verifier::type_invariant]
    closed spec fn ordered(self) -> bool {
        registry_wf(self@)
    }

    /// A registry without metrics.
    pub fn new() -> (r: Registry)
        ensures
            registry_wf(r@),
            r@ == Seq::<FamilyView>::empty(),
    {
        let r = Registry { families: Vec::new() };
        assert(r@ =~= Seq::<FamilyView>::empty());
        r
    }

    /// Every registry is in order. This does nothing but tell so to a caller
    /// that has something to prove of one.
    pub fn in_order(&self)
        ensures
            registry_wf(self@),
    {
        proof {
            use_type_invariant(self);
        }
    }

    /// Looks for the place of a name.
    fn locate(&self, name: &[u8]) -> (r: (usize, bool))
        ensures
            r.0 == rank(self@, name@),
            r.0 <= self.families@.len(),
            r.1 == has_family(self@, name@),
    {
        let ghost all = self@;
        let mut i: usize = 0;
        assert(all.skip(0) =~= all);
        while i < self.families.len()
            invariant
                i <= self.families@.len(),
                all == self@,
                rank(all, name@) == i + rank(all.skip(i as int), name@),
            decreases self.families@.len() - i,
        {
            assert(all.skip(i as int)[0] == self.families@[i as int]@);
            match compare_bytes(self.families[i].name.as_slice(), name) {
                Precedence::Before => {
                    assert(all.skip(i as int).skip(1) =~= all.skip(i + 1));
                    i = i + 1;
                },
                Precedence::Same => {
                    proof {
                        lemma_lex_irreflexive(name@);
                    }
                    return (i, true);
                },
                Precedence::After => {
                    return (i, false);
                },
            }
        }
        (i, false)
    }

    /// Declares a metric before its first observation, with its help text
    /// and the names of its labels. Where the declaration is refused, nothing
    /// changes.
    pub fn register(
        &mut self,
        name: &[u8],
        help: &[u8],
        kind: MetricKind,
        label_names: &Vec<Vec<u8>>,
    ) -> (r: Result<(), RegisterError>)
        ensures
            registry_wf(final(self)@),
            match registered(old(self)@, declared(name@, help@, kind, key_view(label_names@))) {
                Ok(s) => r is Ok && final(self)@ == s,
                Err(e) => r == Err::<(), RegisterError>(e) && final(self)@ == old(self)@,
            },
    {
        proof {
            use_type_invariant(&*self);
        }
        if !names_differ(label_names) {
            return Err(RegisterError::DuplicateLabel);
        }
        let (i, found) = self.locate(name);
        if found {
            return Err(RegisterError::NameTaken);
        }
        let family = Family::new(name, help, kind, label_names);
        let ghost before = self.families@;
        proof {
            lemma_insert_sorted(self@, family@);
            before.insert_ensures(i as int, family);
            self@.insert_ensures(i as int, family@);
        }
        let mut families: Vec<Family> = Vec::new();
        core::mem::swap(&mut self.families, &mut families);
        families.insert(i, family);
        assert(family_views(families@) =~= family_views(before).insert(i as int, family@));
        self.families = families;
        Ok(())
    }

    /// Takes one observation. Where it is refused, nothing changes.
    pub fn apply(&mut self, o: &MetricObservation) -> (r: Result<(), ApplyError>)
        ensures
            registry_wf(final(self)@),
            match applied(old(self)@, o@) {
                Ok(s) => r is Ok && final(self)@ == s,
                Err(e) => r == Err::<(), ApplyError>(e) && final(self)@ == old(self)@,
            },
    {
        proof {
            use_type_invariant(&*self);
            lemma_applied(self@, o@);
        }
        if !labels_differ(&o.labels) {
            return Err(ApplyError::DuplicateLabel);
        }
        let (i, found) = self.locate(o.name.as_slice());
        let ghost before = self.families@;
        let mut families: Vec<Family> = Vec::new();
        core::mem::swap(&mut self.families, &mut families);
        let r = if found {
            let r = families[i].apply(o);
            assert(family_views(families@) =~= family_views(before).update(
                i as int,
                families@[i as int]@,
            ));
            if r.is_err() {
                assert(family_views(families@) =~= family_views(before));
            }
            r
        } else {
            let names = names_of(&o.labels);
            let help: Vec<u8> = Vec::new();
            let mut family = Family::new(o.name.as_slice(), help.as_slice(), o.kind, &names);
            assert(family@ == family_for(o@));
            match family.apply(o) {
                Ok(()) => {
                    proof {
                        before.insert_ensures(i as int, family);
                        family_views(before).insert_ensures(i as int, family@);
                    }
                    families.insert(i, family);
                    assert(family_views(families@) =~= family_views(before).insert(
                        i as int,
                        family@,
                    ));
                    Ok(())
                },
                Err(e) => Err(e),
            }
        };
        self.families = families;
        r
    }

    /// A copy of the state of the series that an observation with this name
    /// and these labels would update, if there is one.
    pub fn series(&self, name: &[u8], labels: &Vec<Label>) -> (r: Option<SeriesValue>)
        ensures
            match series_state(self@, name@, labels_view(labels@)) {
                Some(state) => r matches Some(v) && v@ == state,
                None => r is None,
            },
    {
        let (i, found) = self.locate(name);
        if !found {
            return None;
        }
        let family = &self.families[i];
        match make_key(&family.label_names, labels) {
            None => None,
            Some(key) => {
                let j = family.find_series(&key);
                if j < family.series.len() {
                    Some(family.series[j].value.duplicate())
                } else {
                    None
                }
            },
        }
    }

    /// The total of a counter series, zero while there is none.
    pub fn total(&self, name: &[u8], labels: &Vec<Label>) -> (total: u64)
        ensures
            total == counter_total(self@, name@, labels_view(labels@)),
    {
        match self.series(name, labels) {
            Some(SeriesValue::Counter(total)) => total,
            _ => 0,
        }
    }

    /// A copy of the families that have a series, in the order of their
    /// names. The registry does not change.
    pub fn snapshot(&self) -> (s: Snapshot)
        ensures
            s@ == populated(self@),
            registry_wf(self@),
            registry_wf(s@),
    {
        proof {
            use_type_invariant(self);
        }
        let ghost all = self@;
        let mut families: Vec<Family> = Vec::new();
        let mut i: usize = 0;
        assert(all.take(0) =~= Seq::<FamilyView>::empty());
        assert(family_views(families@) =~= Seq::<FamilyView>::empty());
        while i < self.families.len()
            invariant
                i <= self.families@.len(),
                all == self@,
                family_views(families@) == populated(all.take(i as int)),
            decreases self.families@.len() - i,
        {
            let ghost done = family_views(families@);
            assert(all.take(i + 1).drop_last() =~= all.take(i as int));
            assert(all.take(i + 1).last() == self.families@[i as int]@);
            if self.families[i].series.len() > 0 {
                families.push(self.families[i].duplicate());
                assert(family_views(families@) =~= done.push(self.families@[i as int]@));
            }
            i = i + 1;
        }
        assert(all.take(i as int) =~= all);
        proof {
            lemma_populated(all);
        }
        Snapshot { families }
    }
}

} // verus!
