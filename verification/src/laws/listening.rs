//! A packet that is no line of the protocol changes nothing, and the
//! listener goes on: the valid packets that follow are applied.

use vstd::prelude::*;
use crate::codec::{DecodedView, MetricLineView, parsed};
use crate::listener::lemma_declared_families;
use crate::listener::{
    MAX_PACKET,
    Outcome,
    applied_all,
    duration_family,
    first_refusal,
    initial_registry,
    observations_of,
    orders_family,
    packet_outcome,
    requests_family,
};
use crate::names::{
    lemma_metric_names,
    lemma_words,
    method_word,
    order_total,
    path_word,
    product_word,
    request_duration,
    requests_total,
    status_word,
};
use crate::registry::{all_different, label_names_of};
use crate::registry::{
    ApplyError,
    FamilyView,
    LabelView,
    MetricKind,
    ObservationView,
    applied,
    has_family,
    lemma_applied,
    lemma_families_kept,
    lemma_insert_sorted,
    lemma_rank,
    lemma_rank_is_place,
    lemma_rank_sorted,
    rank,
    registry_wf,
    value_named,
};
use vstd::utf8::valid_utf8;

verus! {

/// A packet that the listener does not take as a line it knows: too long,
/// no UTF-8 text, no metric line, or a line of another shape.
pub open spec fn is_foreign(packet: Seq<u8>) -> bool {
    ||| packet.len() > MAX_PACKET
    ||| !valid_utf8(packet)
    ||| !(parsed(packet) matches Ok(DecodedView::Recognized(_)))
}

/// A packet that holds a line of the protocol that does not ask to count
/// down.
pub open spec fn is_valid_packet(packet: Seq<u8>) -> bool {
    &&& packet.len() <= MAX_PACKET
    &&& valid_utf8(packet)
    &&& parsed(packet) matches Ok(DecodedView::Recognized(line)) && observations_of(line) is Some
}

/// The registry after the packets, each taken in its turn, and how many of
/// them were applied.
pub open spec fn listened(r: Seq<FamilyView>, packets: Seq<Seq<u8>>) -> (Seq<FamilyView>, nat)
    decreases packets.len(),
{
    if packets.len() == 0 {
        (r, 0)
    } else {
        let before = listened(r, packets.drop_last());
        let last = packet_outcome(before.0, packets.last());
        (
            last.0,
            if last.1 == Outcome::Applied {
                before.1 + 1
            } else {
                before.1
            },
        )
    }
}

/// Whether each of the packets, taken in its turn, is applied.
pub open spec fn all_applied(r: Seq<FamilyView>, packets: Seq<Seq<u8>>) -> bool
    decreases packets.len(),
{
    if packets.len() == 0 {
        true
    } else {
        all_applied(r, packets.drop_last()) && packet_outcome(
            listened(r, packets.drop_last()).0,
            packets.last(),
        ).1 == Outcome::Applied
    }
}

/// Whether none of the packets, taken in its turn, is refused because a
/// total, a sum or a count would no longer fit.
pub open spec fn has_room(r: Seq<FamilyView>, packets: Seq<Seq<u8>>) -> bool
    decreases packets.len(),
{
    if packets.len() == 0 {
        true
    } else {
        has_room(r, packets.drop_last()) && packet_outcome(
            listened(r, packets.drop_last()).0,
            packets.last(),
        ).1 != Outcome::Rejected(ApplyError::Overflow)
    }
}

/// A foreign packet leaves the registry as it was, and is not applied.
pub proof fn lemma_foreign_packet(r: Seq<FamilyView>, packet: Seq<u8>)
    requires
        is_foreign(packet),
    ensures
        packet_outcome(r, packet).0 == r,
        packet_outcome(r, packet).1 != Outcome::Applied,
{
}

/// A foreign packet in front of other packets changes nothing of what the
/// listener does with those.
pub proof fn lemma_foreign_packet_is_isolated(
    r: Seq<FamilyView>,
    packet: Seq<u8>,
    packets: Seq<Seq<u8>>,
)
    requires
        is_foreign(packet),
    ensures
        listened(r, seq![packet] + packets) == listened(r, packets),
    decreases packets.len(),
{
    let all = seq![packet] + packets;
    if packets.len() == 0 {
        assert(all.drop_last() =~= packets);
        assert(all.last() == packet);
        lemma_foreign_packet(r, packet);
    } else {
        assert(all.drop_last() =~= seq![packet] + packets.drop_last());
        assert(all.last() == packets.last());
        lemma_foreign_packet_is_isolated(r, packet, packets.drop_last());
    }
}

/// Packets that are applied are counted, each once.
pub proof fn lemma_applied_are_counted(r: Seq<FamilyView>, packets: Seq<Seq<u8>>)
    requires
        all_applied(r, packets),
    ensures
        listened(r, packets).1 == packets.len(),
    decreases packets.len(),
{
    if packets.len() > 0 {
        lemma_applied_are_counted(r, packets.drop_last());
    }
}

/// After a foreign packet and then packets that are all applied, as many
/// packets are applied as came after the foreign one, and the registry is
/// what those alone make it.
pub proof fn lemma_listener_goes_on(r: Seq<FamilyView>, packet: Seq<u8>, packets: Seq<Seq<u8>>)
    requires
        is_foreign(packet),
        all_applied(r, packets),
    ensures
        listened(r, seq![packet] + packets).1 == packets.len(),
        listened(r, seq![packet] + packets).0 == listened(r, packets).0,
{
    lemma_foreign_packet_is_isolated(r, packet, packets);
    lemma_applied_are_counted(r, packets);
}

/// Whether a metric stands in the registry with this kind and these label
/// names.
pub open spec fn declares(
    r: Seq<FamilyView>,
    name: Seq<u8>,
    kind: MetricKind,
    label_names: Seq<Seq<u8>>,
) -> bool {
    &&& has_family(r, name)
    &&& r[rank(r, name)].kind == kind
    &&& r[rank(r, name)].label_names == label_names
}

/// Whether the three metrics that the protocol feeds stand in the registry
/// as the sidecar declares them.
pub open spec fn serves(r: Seq<FamilyView>) -> bool {
    &&& declares(
        r,
        requests_total(),
        MetricKind::Counter,
        seq![path_word(), method_word(), status_word()],
    )
    &&& declares(r, request_duration(), MetricKind::Histogram, seq![path_word(), method_word()])
    &&& declares(r, order_total(), MetricKind::Counter, seq![product_word()])
}

/// The registry that the sidecar starts with is in order and serves the
/// protocol.
pub proof fn lemma_initial_registry_serves()
    ensures
        registry_wf(initial_registry()),
        serves(initial_registry()),
{
    lemma_metric_names();
    lemma_declared_families();
    let r0 = Seq::<FamilyView>::empty();
    let f1 = requests_family();
    let f2 = duration_family();
    let f3 = orders_family();
    lemma_rank(r0, f1.name);
    lemma_insert_sorted(r0, f1);
    let i1 = rank(r0, f1.name);
    r0.insert_ensures(i1, f1);
    let r1 = r0.insert(i1, f1);
    lemma_rank(r1, f2.name);
    lemma_rank_sorted(r1, f2.name);
    lemma_insert_sorted(r1, f2);
    let i2 = rank(r1, f2.name);
    r1.insert_ensures(i2, f2);
    let r2 = r1.insert(i2, f2);
    assert forall|k: int| 0 <= k < r2.len() implies (#[trigger] r2[k]).name != f3.name by {
        if k < i2 {
            assert(r2[k] == r1[k]);
        } else if k > i2 {
            assert(r2[(k - 1) + 1] == r1[k - 1]);
        }
    }
    lemma_rank(r2, f3.name);
    lemma_rank_sorted(r2, f3.name);
    lemma_insert_sorted(r2, f3);
    let i3 = rank(r2, f3.name);
    r2.insert_ensures(i3, f3);
    let r3 = r2.insert(i3, f3);
    assert(r3 == initial_registry());
    lemma_rank_is_place(r3, i3);
    let k2 = if i2 < i3 {
        i2
    } else {
        i2 + 1
    };
    assert(r3[k2] == r2[i2]);
    lemma_rank_is_place(r3, k2);
    let j1 = if 0 < i2 {
        0int
    } else {
        1int
    };
    assert(r2[j1] == r1[0]);
    let k1 = if j1 < i3 {
        j1
    } else {
        j1 + 1
    };
    assert(r3[k1] == r2[j1]);
    lemma_rank_is_place(r3, k1);
}

/// A registry that serves the protocol goes on serving it, whatever is
/// applied to it.
pub proof fn lemma_serves_is_kept(r: Seq<FamilyView>, os: Seq<ObservationView>)
    requires
        registry_wf(r),
        serves(r),
    ensures
        registry_wf(applied_all(r, os)),
        serves(applied_all(r, os)),
    decreases os.len(),
{
    if os.len() > 0 {
        lemma_serves_is_kept(r, os.drop_last());
        let before = applied_all(r, os.drop_last());
        lemma_applied(before, os.last());
        if applied(before, os.last()) is Ok {
            lemma_families_kept(before, os.last(), requests_total());
            lemma_families_kept(before, os.last(), request_duration());
            lemma_families_kept(before, os.last(), order_total());
        }
    }
}

/// A registry that declares a metric takes every observation of that kind
/// with those labels, in their order, unless a number would no longer fit.
pub proof fn lemma_declared_is_taken(r: Seq<FamilyView>, o: ObservationView)
    requires
        registry_wf(r),
        declares(r, o.name, o.kind, label_names_of(o.labels)),
        all_different(label_names_of(o.labels)),
        o.labels.len() <= 3,
    ensures
        applied(r, o) is Ok || applied(r, o) == Err::<Seq<FamilyView>, ApplyError>(
            ApplyError::Overflow,
        ),
{
    let names = label_names_of(o.labels);
    reveal_with_fuel(value_named, 4);
    assert forall|i: int| 0 <= i < names.len() implies value_named(o.labels, #[trigger] names[i])
        is Some by {
        if i >= 1 {
            assert(o.labels.skip(1)[0] == o.labels[1]);
        }
        if i >= 2 {
            assert(o.labels.skip(1).skip(1)[0] == o.labels[2]);
        }
    }
}

/// On a registry that serves the protocol, a valid packet is applied unless
/// a number would no longer fit, and the registry goes on serving the
/// protocol.
pub proof fn lemma_valid_packet_is_applied(r: Seq<FamilyView>, packet: Seq<u8>)
    requires
        registry_wf(r),
        serves(r),
        is_valid_packet(packet),
    ensures
        packet_outcome(r, packet).1 == Outcome::Applied || packet_outcome(r, packet).1
            == Outcome::Rejected(ApplyError::Overflow),
        registry_wf(packet_outcome(r, packet).0),
        serves(packet_outcome(r, packet).0),
{
    lemma_words();
    let line = parsed(packet)->Ok_0->Recognized_0;
    let os = observations_of(line)->0;
    let none = Seq::<ObservationView>::empty();
    lemma_serves_is_kept(r, os);
    assert(applied_all(r, none) == r);
    assert(first_refusal(r, none) is None);
    let first = os[0];
    assert(label_names_of(first.labels) =~= r[rank(r, first.name)].label_names);
    lemma_declared_is_taken(r, first);
    match line {
        MetricLineView::Order { .. } => {
            assert(os.drop_last() =~= none);
            assert(os.last() == first);
        },
        MetricLineView::Request { .. } => {
            let second = os[1];
            let head = os.drop_last();
            assert(head.drop_last() =~= none);
            assert(head.last() == first);
            assert(os.last() == second);
            let between = applied_all(r, head);
            lemma_serves_is_kept(r, head);
            assert(label_names_of(second.labels) =~= between[rank(
                between,
                second.name,
            )].label_names);
            lemma_declared_is_taken(between, second);
            assert(first_refusal(r, head) == match applied(r, first) {
                Ok(_) => None,
                Err(e) => Some(e),
            });
            assert(first_refusal(r, os) == match first_refusal(r, head) {
                Some(e) => Some(e),
                None => match applied(between, second) {
                    Ok(_) => None,
                    Err(e) => Some(e),
                },
            });
        },
    }
}

/// Whatever packets came, the registry that the listener works on is in
/// order, and it serves the protocol if it did so before.
pub proof fn lemma_listener_keeps_serving(r: Seq<FamilyView>, packets: Seq<Seq<u8>>)
    requires
        registry_wf(r),
        serves(r),
    ensures
        registry_wf(listened(r, packets).0),
        serves(listened(r, packets).0),
    decreases packets.len(),
{
    if packets.len() > 0 {
        lemma_listener_keeps_serving(r, packets.drop_last());
        let before = listened(r, packets.drop_last()).0;
        let packet = packets.last();
        if is_valid_packet(packet) {
            lemma_valid_packet_is_applied(before, packet);
        } else if !is_foreign(packet) {
            assert(packet_outcome(before, packet).0 == before);
        } else {
            lemma_foreign_packet(before, packet);
        }
    }
}

/// Valid packets, on a registry that serves the protocol and has room for
/// them, are all applied.
pub proof fn lemma_valid_packets_are_applied(r: Seq<FamilyView>, packets: Seq<Seq<u8>>)
    requires
        registry_wf(r),
        serves(r),
        forall|i: int| 0 <= i < packets.len() ==> is_valid_packet(#[trigger] packets[i]),
        has_room(r, packets),
    ensures
        all_applied(r, packets),
    decreases packets.len(),
{
    if packets.len() > 0 {
        let earlier = packets.drop_last();
        assert forall|i: int| 0 <= i < earlier.len() implies is_valid_packet(
            #[trigger] earlier[i],
        ) by {
            assert(earlier[i] == packets[i]);
        }
        lemma_valid_packets_are_applied(r, earlier);
        lemma_listener_keeps_serving(r, earlier);
        assert(is_valid_packet(packets[packets.len() - 1]));
        lemma_valid_packet_is_applied(listened(r, earlier).0, packets.last());
    }
}

/// After a foreign packet and then valid packets, on a registry that serves
/// the protocol and has room for them, every one of the valid packets is
/// applied, and none else.
pub proof fn lemma_valid_packets_are_all_applied(
    r: Seq<FamilyView>,
    packet: Seq<u8>,
    packets: Seq<Seq<u8>>,
)
    requires
        registry_wf(r),
        serves(r),
        is_foreign(packet),
        forall|i: int| 0 <= i < packets.len() ==> is_valid_packet(#[trigger] packets[i]),
        has_room(r, packets),
    ensures
        listened(r, seq![packet] + packets).1 == packets.len(),
        listened(r, seq![packet] + packets).0 == listened(r, packets).0,
{
    lemma_valid_packets_are_applied(r, packets);
    lemma_listener_goes_on(r, packet, packets);
}

} // verus!
