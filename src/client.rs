//! What the client handle checks and builds before a request leaves it.
//! Packet identifiers are assigned later, by the handler's state.
use crate::packets::{
    Packet, PacketView, Publish, PublishView, QoS, ReasonPacket, ReasonPacketView, Subscribe,
    TopicFilter, TopicFilterView, Unsubscribe,
};
use crate::utf8::{check_utf8, utf8_ok};
use crate::vbi::{variable_integer_len, vbi_len};
use vstd::prelude::*;

verus! {

/// Why the client refused a call.
#[derive(Debug, Clone, Copy, PartialEq, Eq, Structural)]
pub enum ClientError {
    /// A topic or topic filter is empty.
    EmptyTopic,
    /// A topic or topic filter is longer than 65535 bytes.
    TopicTooLong,
    /// A publish topic holds `+` or `#`.
    WildcardInTopic,
    /// A topic holds a NUL byte.
    NulInTopic,
    /// A topic is not well-formed UTF-8.
    InvalidUtf8,
    /// A Subscribe or Unsubscribe names no filter.
    NoTopics,
    /// The QoS is above the maximum the broker accepts.
    QosNotSupported,
    /// The publish would be larger than the broker accepts.
    PacketTooLarge,
    /// The session is gone; the request was not accepted.
    Disconnected,
}

pub open spec fn has_byte(t: Seq<u8>, b: u8) -> bool {
    exists|i: int| 0 <= i < t.len() && t[i] == b
}

/// The first rule a topic filter breaks, if any.
pub open spec fn filter_check(t: Seq<u8>) -> Option<ClientError> {
    if t.len() == 0 {
        Some(ClientError::EmptyTopic)
    } else if t.len() > 65535 {
        Some(ClientError::TopicTooLong)
    } else if has_byte(t, 0) {
        Some(ClientError::NulInTopic)
    } else if !utf8_ok(t) {
        Some(ClientError::InvalidUtf8)
    } else {
        None
    }
}

/// The first rule a publish topic breaks, if any: those of a filter, and
/// no wildcard.
pub open spec fn topic_check(t: Seq<u8>) -> Option<ClientError> {
    match filter_check(t) {
        Some(e) => Some(e),
        None => if has_byte(t, 43) || has_byte(t, 35) {
            Some(ClientError::WildcardInTopic)
        } else {
            None
        },
    }
}

fn find_byte(t: &Vec<u8>, b: u8) -> (r: bool)
    ensures
        r == has_byte(t@, b),
{
    let mut i: usize = 0;
    while i < t.len()
        invariant
            i <= t@.len(),
            forall|j: int| 0 <= j < i ==> t@[j] != b,
        decreases t@.len() - i,
    {
        if t[i] == b {
            return true;
        }
        i = i + 1;
    }
    false
}

fn check_filter(t: &Vec<u8>) -> (r: Option<ClientError>)
    ensures
        r == filter_check(t@),
{
    if t.len() == 0 {
        Some(ClientError::EmptyTopic)
    } else if t.len() > 65535 {
        Some(ClientError::TopicTooLong)
    } else if find_byte(t, 0) {
        Some(ClientError::NulInTopic)
    } else if !check_utf8(t.as_slice()) {
        Some(ClientError::InvalidUtf8)
    } else {
        None
    }
}

/// Checks a publish topic; `None` when it may be used.
pub fn check_topic(t: &Vec<u8>) -> (r: Option<ClientError>)
    ensures
        r == topic_check(t@),
{
    match check_filter(t) {
        Some(e) => Some(e),
        None => if find_byte(t, 43) || find_byte(t, 35) {
            Some(ClientError::WildcardInTopic)
        } else {
            None
        },
    }
}

/// The publish the client hands on: dup clear, no identifier yet, no
/// properties. Refused when the topic breaks a rule.
pub fn publish_packet(qos: QoS, retain: bool, topic: Vec<u8>, payload: Vec<u8>) -> (r: Result<Packet, ClientError>)
    ensures
        match topic_check(topic@) {
            Some(e) => r == Err::<Packet, ClientError>(e),
            None => r matches Ok(p) && p@ == PacketView::Publish(
                PublishView {
                    dup: false,
                    qos,
                    retain,
                    topic: topic@,
                    packet_identifier: None,
                    properties: Seq::empty(),
                    payload: payload@,
                },
            ),
        },
{
    match check_topic(&topic) {
        Some(e) => Err(e),
        None => {
            let p = Publish {
                dup: false,
                qos,
                retain,
                topic,
                packet_identifier: None,
                properties: Vec::new(),
                payload,
            };
            proof {
                assert(p.properties@ =~= Seq::<u8>::empty());
            }
            Ok(Packet::Publish(p))
        },
    }
}

/// The length on the wire of a publish without properties: fixed header,
/// remaining length, topic, packet identifier when the QoS is above 0, an
/// empty property block, payload.
pub open spec fn publish_wire_len(qos: QoS, topic_len: nat, payload_len: nat) -> nat {
    let body = 2 + topic_len + (if qos == QoS::AtMostOnce { 0nat } else { 2nat }) + 1 + payload_len;
    1 + vbi_len(body) + body
}

/// Checks a publish against the broker's limits: its maximum QoS, and its
/// maximum packet size (0 when it sets none). A body too long for any
/// packet counts as too large.
pub fn check_publish_limits(
    qos: QoS,
    topic_len: usize,
    payload_len: usize,
    maximum_qos: QoS,
    maximum_packet_size: u32,
) -> (r: Result<(), ClientError>)
    ensures
        r == if qos.spec_to_bits() > maximum_qos.spec_to_bits() {
            Err::<(), ClientError>(ClientError::QosNotSupported)
        } else if 2 + topic_len + 2 + 1 + payload_len > 268435455 || (maximum_packet_size != 0
            && publish_wire_len(qos, topic_len as nat, payload_len as nat) > maximum_packet_size) {
            Err::<(), ClientError>(ClientError::PacketTooLarge)
        } else {
            Ok::<(), ClientError>(())
        },
{
    if qos.to_bits() > maximum_qos.to_bits() {
        return Err(ClientError::QosNotSupported);
    }
    if topic_len > 268435450 || payload_len > 268435450 - topic_len {
        return Err(ClientError::PacketTooLarge);
    }
    let id_len: usize = match qos {
        QoS::AtMostOnce => 0,
        _ => 2,
    };
    let body: usize = 2 + topic_len + id_len + 1 + payload_len;
    if maximum_packet_size != 0 {
        let total: u64 = 1 + variable_integer_len(body as u32) as u64 + body as u64;
        if total > maximum_packet_size as u64 {
            return Err(ClientError::PacketTooLarge);
        }
    }
    Ok(())
}

fn check_filter_list(ts: &Vec<Vec<u8>>) -> (r: Option<ClientError>)
    ensures
        r is None <==> (ts@.len() > 0 && forall|i: int| 0 <= i < ts@.len() ==> filter_check(#[trigger] ts@[i]@) is None),
        ts@.len() == 0 ==> r == Some(ClientError::NoTopics),
        match r {
            Some(e) => ts@.len() > 0 ==> exists|i: int|
                0 <= i < ts@.len() && filter_check(#[trigger] ts@[i]@) == Some(e),
            None => true,
        },
{
    if ts.len() == 0 {
        return Some(ClientError::NoTopics);
    }
    let mut i: usize = 0;
    while i < ts.len()
        invariant
            i <= ts@.len(),
            forall|j: int| 0 <= j < i ==> filter_check(#[trigger] ts@[j]@) is None,
        decreases ts@.len() - i,
    {
        if let Some(e) = check_filter(&ts[i]) {
            return Some(e);
        }
        i = i + 1;
    }
    None
}

/// A Subscribe for the given filters, each with its options byte; the
/// identifier is assigned when the handler takes it. Refused when the list
/// is empty or a filter breaks a rule (the error names one such rule).
pub fn subscribe_packet(topics: Vec<Vec<u8>>, options: Vec<u8>) -> (r: Result<Packet, ClientError>)
    requires
        topics@.len() == options@.len(),
    ensures
        r is Ok <==> (topics@.len() > 0 && forall|i: int| 0 <= i < topics@.len() ==> filter_check(#[trigger] topics@[i]@) is None),
        topics@.len() == 0 ==> r == Err::<Packet, ClientError>(ClientError::NoTopics),
        match r {
            Err(e) => topics@.len() > 0 ==> exists|i: int|
                0 <= i < topics@.len() && filter_check(#[trigger] topics@[i]@) == Some(e),
            Ok(_) => true,
        },
        r matches Ok(p) ==> p matches Packet::Subscribe(s) && s.properties@.len() == 0 && s.topics@.len() == topics@.len()
            && forall|i: int| 0 <= i < topics@.len() ==> (#[trigger] s.topics@[i])@ == (TopicFilterView { topic: topics@[i]@, options: options@[i] }),
{
    if let Some(e) = check_filter_list(&topics) {
        return Err(e);
    }
    let mut out: Vec<TopicFilter> = Vec::new();
    let mut i: usize = 0;
    while i < topics.len()
        invariant
            i <= topics@.len(),
            topics@.len() == options@.len(),
            out@.len() == i,
            forall|j: int| 0 <= j < i ==> (#[trigger] out@[j])@ == (TopicFilterView { topic: topics@[j]@, options: options@[j] }),
        decreases topics@.len() - i,
    {
        out.push(TopicFilter { topic: topics[i].clone(), options: options[i] });
        i = i + 1;
    }
    Ok(Packet::Subscribe(Subscribe { packet_identifier: 0, properties: Vec::new(), topics: out }))
}

/// An Unsubscribe for the given filters; the identifier is assigned when
/// the handler takes it. Refused as a Subscribe would be.
pub fn unsubscribe_packet(topics: Vec<Vec<u8>>) -> (r: Result<Packet, ClientError>)
    ensures
        r is Ok <==> (topics@.len() > 0 && forall|i: int| 0 <= i < topics@.len() ==> filter_check(#[trigger] topics@[i]@) is None),
        topics@.len() == 0 ==> r == Err::<Packet, ClientError>(ClientError::NoTopics),
        match r {
            Err(e) => topics@.len() > 0 ==> exists|i: int|
                0 <= i < topics@.len() && filter_check(#[trigger] topics@[i]@) == Some(e),
            Ok(_) => true,
        },
        r matches Ok(p) ==> p matches Packet::Unsubscribe(u) && u.properties@.len() == 0 && u@.topics == topics@.map_values(|t: Vec<u8>| t@),
{
    if let Some(e) = check_filter_list(&topics) {
        return Err(e);
    }
    Ok(Packet::Unsubscribe(Unsubscribe { packet_identifier: 0, properties: Vec::new(), topics }))
}

/// A Disconnect with the given reason code and no properties.
pub fn disconnect_packet(reason_code: u8) -> (r: Packet)
    ensures
        r@ == PacketView::Disconnect(ReasonPacketView { reason_code, properties: Seq::empty() }),
{
    let r = ReasonPacket { reason_code, properties: Vec::new() };
    proof {
        assert(r.properties@ =~= Seq::<u8>::empty());
    }
    Packet::Disconnect(r)
}

} // verus!
