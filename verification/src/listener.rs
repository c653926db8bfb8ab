//! What the listener does with one packet: it decodes the bytes as text,
//! reads the text as a metric line, and applies the line's observations to
//! the registry. Whatever the packet holds, the answer is an outcome, and a
//! packet that is not applied leaves the registry as it was.

use vstd::prelude::*;
use vstd::string::StringSliceAdditionalSpecFns;
use vstd::utf8::valid_utf8;
use crate::bytes::copy_bytes;
use crate::codec::{Decoded, DecodedView, MetricLine, MetricLineView};
use crate::codec::{parse, parsed};
use crate::names::{
    method_word,
    order_total,
    path_word,
    product_word,
    request_duration,
    requests_total,
    status_word,
};
use crate::names::{
    method_word_bytes,
    order_total_bytes,
    path_word_bytes,
    product_word_bytes,
    request_duration_bytes,
    requests_total_bytes,
    status_word_bytes,
};
use crate::names::{lemma_metric_names, lemma_words};
use crate::registry::{
    ApplyError,
    FamilyView,
    Label,
    LabelView,
    MetricKind,
    MetricObservation,
    ObservationView,
    Registry,
};
use crate::registry::{applied, declared, family_wf, key_view, labels_view, rank, registry_wf};
use crate::registry::{lemma_applied, lemma_rank, lemma_rank_sorted};
use crate::wire::ParseError;

verus! {

/// The longest packet that is looked at.
pub const MAX_PACKET: usize = 4096;

/// What became of a packet or a line.
#[derive(Clone, Copy, Debug, PartialEq, Eq, Structural)]
pub enum Outcome {
    /// All observations of the line were applied.
    Applied,
    /// The packet is longer than `MAX_PACKET` bytes.
    Oversized,
    /// The packet is not UTF-8 text.
    InvalidEncoding,
    /// The text is no metric line.
    Malformed(ParseError),
    /// The line is well formed, but not one that the protocol knows.
    Unrecognized,
    /// The line asks to count down.
    NegativeIncrement,
    /// The registry refused an observation of the line, with this error for
    /// the first of them. The others were applied.
    Rejected(ApplyError),
}

/// Observations as mathematical values.
pub open spec fn observations_view(os: Seq<MetricObservation>) -> Seq<ObservationView> {
    os.map_values(|o: MetricObservation| o@)
}

/// The observations that a line stands for, unless it asks to count down: a
/// request counts one for its path, method and status, and its duration goes
/// to the histogram of its path and method; an order counts its quantity for
/// its product.
pub open spec fn observations_of(line: MetricLineView) -> Option<Seq<ObservationView>> {
    match line {
        MetricLineView::Request { path, method, status, duration } => Some(
            seq![
                ObservationView {
                    name: requests_total(),
                    kind: MetricKind::Counter,
                    labels: seq![
                        LabelView { name: path_word(), value: path },
                        LabelView { name: method_word(), value: method },
                        LabelView { name: status_word(), value: status },
                    ],
                    value: 1,
                },
                ObservationView {
                    name: request_duration(),
                    kind: MetricKind::Histogram,
                    labels: seq![
                        LabelView { name: path_word(), value: path },
                        LabelView { name: method_word(), value: method },
                    ],
                    value: duration as nat,
                },
            ],
        ),
        MetricLineView::Order { product_id, quantity } => if quantity < 0 {
            None
        } else {
            Some(
                seq![
                    ObservationView {
                        name: order_total(),
                        kind: MetricKind::Counter,
                        labels: seq![LabelView { name: product_word(), value: product_id }],
                        value: quantity as nat,
                    },
                ],
            )
        },
    }
}

/// The registry after the observations, each in its turn applied or, where
/// the registry refuses it, left out.
pub open spec fn applied_all(r: Seq<FamilyView>, os: Seq<ObservationView>) -> Seq<FamilyView>
    decreases os.len(),
{
    if os.len() == 0 {
        r
    } else {
        let before = applied_all(r, os.drop_last());
        match applied(before, os.last()) {
            Ok(after) => after,
            Err(_) => before,
        }
    }
}

/// Why the first of the observations that the registry refuses is refused.
pub open spec fn first_refusal(r: Seq<FamilyView>, os: Seq<ObservationView>) -> Option<ApplyError>
    decreases os.len(),
{
    if os.len() == 0 {
        None
    } else {
        match first_refusal(r, os.drop_last()) {
            Some(e) => Some(e),
            None => match applied(applied_all(r, os.drop_last()), os.last()) {
                Ok(_) => None,
                Err(e) => Some(e),
            },
        }
    }
}

/// The registry after a line of text, and what became of the line.
pub open spec fn line_outcome(r: Seq<FamilyView>, text: Seq<u8>) -> (Seq<FamilyView>, Outcome) {
    match parsed(text) {
        Err(e) => (r, Outcome::Malformed(e)),
        Ok(DecodedView::Unrecognized) => (r, Outcome::Unrecognized),
        Ok(DecodedView::Recognized(line)) => match observations_of(line) {
            None => (r, Outcome::NegativeIncrement),
            Some(os) => (
                applied_all(r, os),
                match first_refusal(r, os) {
                    None => Outcome::Applied,
                    Some(e) => Outcome::Rejected(e),
                },
            ),
        },
    }
}

/// The registry after a packet, and what became of the packet.
pub open spec fn packet_outcome(r: Seq<FamilyView>, packet: Seq<u8>) -> (Seq<FamilyView>, Outcome) {
    if packet.len() > MAX_PACKET {
        (r, Outcome::Oversized)
    } else if !valid_utf8(packet) {
        (r, Outcome::InvalidEncoding)
    } else {
        line_outcome(r, packet)
    }
}

/// A registry stays well formed under any observations.
pub proof fn lemma_applied_all(r: Seq<FamilyView>, os: Seq<ObservationView>)
    requires
        registry_wf(r),
    ensures
        registry_wf(applied_all(r, os)),
    decreases os.len(),
{
    if os.len() > 0 {
        lemma_applied_all(r, os.drop_last());
        lemma_applied(applied_all(r, os.drop_last()), os.last());
    }
}

/// A label with copies of a name and a value.
fn label(name: &[u8], value: &[u8]) -> (l: Label)
    ensures
        l@ == (LabelView { name: name@, value: value@ }),
{
    Label { name: copy_bytes(name), value: copy_bytes(value) }
}

/// The observations that a line stands for, unless it asks to count down.
pub fn observations(line: &MetricLine) -> (r: Option<Vec<MetricObservation>>)
    ensures
        match observations_of(line@) {
            Some(os) => r matches Some(v) && observations_view(v@) == os,
            None => r is None,
        },
{
    let mut all: Vec<MetricObservation> = Vec::new();
    match line {
        MetricLine::Request { path, method, status, duration } => {
            let mut counted: Vec<Label> = Vec::new();
            counted.push(label(path_word_bytes(), path.as_slice()));
            counted.push(label(method_word_bytes(), method.as_slice()));
            counted.push(label(status_word_bytes(), status.as_slice()));
            let mut timed: Vec<Label> = Vec::new();
            timed.push(label(path_word_bytes(), path.as_slice()));
            timed.push(label(method_word_bytes(), method.as_slice()));
            let ghost os = observations_of(line@)->0;
            assert(labels_view(counted@) =~= os[0].labels);
            assert(labels_view(timed@) =~= os[1].labels);
            all.push(
                MetricObservation {
                    name: copy_bytes(requests_total_bytes()),
                    kind: MetricKind::Counter,
                    labels: counted,
                    value: 1,
                },
            );
            all.push(
                MetricObservation {
                    name: copy_bytes(request_duration_bytes()),
                    kind: MetricKind::Histogram,
                    labels: timed,
                    value: *duration,
                },
            );
            assert(observations_view(all@) =~= os);
            Some(all)
        },
        MetricLine::Order { product_id, quantity } => {
            if *quantity < 0 {
                return None;
            }
            let mut counted: Vec<Label> = Vec::new();
            counted.push(label(product_word_bytes(), product_id.as_slice()));
            let ghost os = observations_of(line@)->0;
            assert(labels_view(counted@) =~= os[0].labels);
            all.push(
                MetricObservation {
                    name: copy_bytes(order_total_bytes()),
                    kind: MetricKind::Counter,
                    labels: counted,
                    value: *quantity as u64,
                },
            );
            assert(observations_view(all@) =~= os);
            Some(all)
        },
    }
}

/// Applies the observations in their order. One that the registry refuses
/// is left out, and the answer is the error of the first such.
pub fn apply_all(registry: &mut Registry, os: &Vec<MetricObservation>) -> (refusal: Option<
    ApplyError,
>)
    ensures
        final(registry)@ == applied_all(old(registry)@, observations_view(os@)),
        refusal == first_refusal(old(registry)@, observations_view(os@)),
        registry_wf(final(registry)@),
{
    registry.in_order();
    let ghost start = registry@;
    let ghost all = observations_view(os@);
    let mut refusal: Option<ApplyError> = None;
    let mut i: usize = 0;
    assert(all.take(0) =~= Seq::<ObservationView>::empty());
    while i < os.len()
        invariant
            i <= os@.len(),
            all == observations_view(os@),
            registry_wf(registry@),
            registry@ == applied_all(start, all.take(i as int)),
            refusal == first_refusal(start, all.take(i as int)),
        decreases os@.len() - i,
    {
        assert(all.take(i + 1).drop_last() =~= all.take(i as int));
        assert(all.take(i + 1).last() == os@[i as int]@);
        match registry.apply(&os[i]) {
            Ok(()) => {},
            Err(e) => {
                if refusal.is_none() {
                    refusal = Some(e);
                }
            },
        }
        i = i + 1;
    }
    assert(all.take(i as int) =~= all);
    refusal
}

/// Reads a line of text and applies it.
fn process_line(registry: &mut Registry, text: &[u8]) -> (outcome: Outcome)
    ensures
        (final(registry)@, outcome) == line_outcome(old(registry)@, text@),
        registry_wf(final(registry)@),
{
    registry.in_order();
    match parse(text) {
        Err(e) => Outcome::Malformed(e),
        Ok(Decoded::Unrecognized) => Outcome::Unrecognized,
        Ok(Decoded::Recognized(line)) => match observations(&line) {
            None => Outcome::NegativeIncrement,
            Some(os) => match apply_all(registry, &os) {
                None => Outcome::Applied,
                Some(e) => Outcome::Rejected(e),
            },
        },
    }
}

/// Takes one metric line: reads it and applies what it says to the
/// registry.
pub fn process_metric(registry: &mut Registry, metric_str: &str) -> (outcome: Outcome)
    ensures
        (final(registry)@, outcome) == line_outcome(old(registry)@, metric_str.spec_bytes()),
        registry_wf(final(registry)@),
{
    process_line(registry, metric_str.as_bytes())
}

/// Tells whether the bytes are UTF-8 text, by `core::str::from_utf8`, which
/// accepts a slice exactly when it is well-formed UTF-8.
#[verifier::external_body]
fn is_utf8(bytes: &[u8]) -> (r: bool)
    ensures
        r == valid_utf8(bytes@),
{
    core::str::from_utf8(bytes).is_ok()
}

/// Takes one packet as it was received.
pub fn process_packet(registry: &mut Registry, packet: &[u8]) -> (outcome: Outcome)
    ensures
        (final(registry)@, outcome) == packet_outcome(old(registry)@, packet@),
        registry_wf(final(registry)@),
{
    registry.in_order();
    if packet.len() > MAX_PACKET {
        Outcome::Oversized
    } else if !is_utf8(packet) {
        Outcome::InvalidEncoding
    } else {
        process_line(registry, packet)
    }
}

/// The counter of handled requests, as declared.
pub open spec fn requests_family() -> FamilyView {
    declared(
        requests_total(),
        "Total HTTP requests".spec_bytes(),
        MetricKind::Counter,
        seq![path_word(), method_word(), status_word()],
    )
}

/// The histogram of request durations, as declared.
pub open spec fn duration_family() -> FamilyView {
    declared(
        request_duration(),
        "HTTP request duration in seconds".spec_bytes(),
        MetricKind::Histogram,
        seq![path_word(), method_word()],
    )
}

/// The counter of ordered units, as declared.
pub open spec fn orders_family() -> FamilyView {
    declared(
        order_total(),
        "Total number of orders".spec_bytes(),
        MetricKind::Counter,
        seq![product_word()],
    )
}

/// The three metrics are declared well: no label name comes twice.
pub proof fn lemma_declared_families()
    ensures
        family_wf(requests_family()),
        family_wf(duration_family()),
        family_wf(orders_family()),
{
    lemma_words();
}

/// A registry with one more family, at the rank of its name.
pub open spec fn with_family(r: Seq<FamilyView>, f: FamilyView) -> Seq<FamilyView> {
    r.insert(rank(r, f.name), f)
}

/// The registry that the sidecar starts with: the three metrics that its
/// lines feed, declared and without series.
pub open spec fn initial_registry() -> Seq<FamilyView> {
    with_family(
        with_family(with_family(Seq::empty(), requests_family()), duration_family()),
        orders_family(),
    )
}

/// One label name.
fn names1(a: &[u8]) -> (v: Vec<Vec<u8>>)
    ensures
        key_view(v@) == seq![a@],
{
    let mut v: Vec<Vec<u8>> = Vec::new();
    v.push(copy_bytes(a));
    assert(key_view(v@) =~= seq![a@]);
    v
}

/// Two label names.
fn names2(a: &[u8], b: &[u8]) -> (v: Vec<Vec<u8>>)
    ensures
        key_view(v@) == seq![a@, b@],
{
    let mut v: Vec<Vec<u8>> = Vec::new();
    v.push(copy_bytes(a));
    v.push(copy_bytes(b));
    assert(key_view(v@) =~= seq![a@, b@]);
    v
}

/// Three label names.
fn names3(a: &[u8], b: &[u8], c: &[u8]) -> (v: Vec<Vec<u8>>)
    ensures
        key_view(v@) == seq![a@, b@, c@],
{
    let mut v: Vec<Vec<u8>> = Vec::new();
    v.push(copy_bytes(a));
    v.push(copy_bytes(b));
    v.push(copy_bytes(c));
    assert(key_view(v@) =~= seq![a@, b@, c@]);
    v
}

/// Makes the registry that the sidecar starts with.
pub fn init_metrics() -> (registry: Registry)
    ensures
        registry@ == initial_registry(),
        registry_wf(registry@),
{
    let mut registry = Registry::new();
    proof {
        lemma_metric_names();
        lemma_declared_families();
    }
    let ghost r0 = registry@;
    proof {
        lemma_rank_sorted(r0, requests_total());
    }
    let _ = registry.register(
        requests_total_bytes(),
        "Total HTTP requests".as_bytes(),
        MetricKind::Counter,
        &names3(path_word_bytes(), method_word_bytes(), status_word_bytes()),
    );
    let ghost r1 = registry@;
    proof {
        lemma_rank(r0, requests_total());
        r0.insert_ensures(rank(r0, requests_total()), requests_family());
        lemma_rank_sorted(r1, request_duration());
    }
    let _ = registry.register(
        request_duration_bytes(),
        "HTTP request duration in seconds".as_bytes(),
        MetricKind::Histogram,
        &names2(path_word_bytes(), method_word_bytes()),
    );
    let ghost r2 = registry@;
    proof {
        lemma_rank(r1, request_duration());
        r1.insert_ensures(rank(r1, request_duration()), duration_family());
        lemma_rank_sorted(r2, order_total());
        assert forall|k: int| 0 <= k < r2.len() implies (#[trigger] r2[k]).name
            != order_total() by {
            let i = rank(r1, request_duration());
            if k < i {
                assert(r2[k] == r1[k]);
            } else if k > i {
                assert(r2[(k - 1) + 1] == r1[k - 1]);
            }
        }
    }
    let _ = registry.register(
        order_total_bytes(),
        "Total number of orders".as_bytes(),
        MetricKind::Counter,
        &names1(product_word_bytes()),
    );
    registry
}

} // verus!
