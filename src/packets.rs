//! MQTT v5 control packets, their views as plain sequences, and the errors
//! of reading and writing them.
use vstd::prelude::*;

verus! {

/// Quality of service of a publish.
#[derive(Debug, Clone, Copy, PartialEq, Eq, Structural)]
pub enum QoS {
    AtMostOnce,
    AtLeastOnce,
    ExactlyOnce,
}

impl QoS {
    pub open spec fn spec_to_bits(self) -> u8 {
        match self {
            QoS::AtMostOnce => 0,
            QoS::AtLeastOnce => 1,
            QoS::ExactlyOnce => 2,
        }
    }

    /// The two-bit wire value.
    pub fn to_bits(self) -> (r: u8)
        ensures
            r == self.spec_to_bits(),
    {
        match self {
            QoS::AtMostOnce => 0,
            QoS::AtLeastOnce => 1,
            QoS::ExactlyOnce => 2,
        }
    }

    pub open spec fn spec_from_bits(b: u8) -> Option<QoS> {
        if b == 0 {
            Some(QoS::AtMostOnce)
        } else if b == 1 {
            Some(QoS::AtLeastOnce)
        } else if b == 2 {
            Some(QoS::ExactlyOnce)
        } else {
            None
        }
    }

    /// The level a two-bit wire value stands for; 3 is reserved.
    pub fn from_bits(b: u8) -> (r: Option<QoS>)
        ensures
            r == Self::spec_from_bits(b),
    {
        if b == 0 {
            Some(QoS::AtMostOnce)
        } else if b == 1 {
            Some(QoS::AtLeastOnce)
        } else if b == 2 {
            Some(QoS::ExactlyOnce)
        } else {
            None
        }
    }
}

/// An application message. The packet identifier is present exactly when
/// the QoS is above 0. Properties are kept as their encoded block.
#[derive(Debug, Clone, PartialEq, Eq)]
pub struct Publish {
    pub dup: bool,
    pub qos: QoS,
    pub retain: bool,
    pub topic: Vec<u8>,
    pub packet_identifier: Option<u16>,
    pub properties: Vec<u8>,
    pub payload: Vec<u8>,
}

/// PubAck, PubRec, PubRel and PubComp: a packet identifier and a reason code.
#[derive(Debug, Clone, Copy, PartialEq, Eq, Structural)]
pub struct Ack {
    pub packet_identifier: u16,
    pub reason_code: u8,
}

/// One topic filter of a Subscribe with its subscription options byte.
#[derive(Debug, Clone, PartialEq, Eq)]
pub struct TopicFilter {
    pub topic: Vec<u8>,
    pub options: u8,
}

#[derive(Debug, Clone, PartialEq, Eq)]
pub struct Subscribe {
    pub packet_identifier: u16,
    pub properties: Vec<u8>,
    pub topics: Vec<TopicFilter>,
}

#[derive(Debug, Clone, PartialEq, Eq)]
pub struct Unsubscribe {
    pub packet_identifier: u16,
    pub properties: Vec<u8>,
    pub topics: Vec<Vec<u8>>,
}

/// SubAck and UnsubAck: one reason code per filter of the request.
#[derive(Debug, Clone, PartialEq, Eq)]
pub struct SubAck {
    pub packet_identifier: u16,
    pub properties: Vec<u8>,
    pub reason_codes: Vec<u8>,
}

#[derive(Debug, Clone, PartialEq, Eq)]
pub struct ConnAck {
    pub session_present: bool,
    pub reason_code: u8,
    pub properties: Vec<u8>,
}

#[derive(Debug, Clone, PartialEq, Eq)]
pub struct Connect {
    pub clean_start: bool,
    pub keep_alive: u16,
    pub properties: Vec<u8>,
    pub client_id: Vec<u8>,
    pub username: Option<Vec<u8>>,
    pub password: Option<Vec<u8>>,
}

/// Disconnect and Auth: a reason code and a property block.
#[derive(Debug, Clone, PartialEq, Eq)]
pub struct ReasonPacket {
    pub reason_code: u8,
    pub properties: Vec<u8>,
}

/// The MQTT v5 control packets.
#[derive(Debug, Clone, PartialEq, Eq)]
pub enum Packet {
    Connect(Connect),
    ConnAck(ConnAck),
    Publish(Publish),
    PubAck(Ack),
    PubRec(Ack),
    PubRel(Ack),
    PubComp(Ack),
    Subscribe(Subscribe),
    SubAck(SubAck),
    Unsubscribe(Unsubscribe),
    UnsubAck(SubAck),
    PingReq,
    PingResp,
    Disconnect(ReasonPacket),
    Auth(ReasonPacket),
}

pub struct PublishView {
    pub dup: bool,
    pub qos: QoS,
    pub retain: bool,
    pub topic: Seq<u8>,
    pub packet_identifier: Option<u16>,
    pub properties: Seq<u8>,
    pub payload: Seq<u8>,
}

pub struct TopicFilterView {
    pub topic: Seq<u8>,
    pub options: u8,
}

pub struct SubscribeView {
    pub packet_identifier: u16,
    pub properties: Seq<u8>,
    pub topics: Seq<TopicFilterView>,
}

pub struct UnsubscribeView {
    pub packet_identifier: u16,
    pub properties: Seq<u8>,
    pub topics: Seq<Seq<u8>>,
}

pub struct SubAckView {
    pub packet_identifier: u16,
    pub properties: Seq<u8>,
    pub reason_codes: Seq<u8>,
}

pub struct ConnAckView {
    pub session_present: bool,
    pub reason_code: u8,
    pub properties: Seq<u8>,
}

pub struct ConnectView {
    pub clean_start: bool,
    pub keep_alive: u16,
    pub properties: Seq<u8>,
    pub client_id: Seq<u8>,
    pub username: Option<Seq<u8>>,
    pub password: Option<Seq<u8>>,
}

pub struct ReasonPacketView {
    pub reason_code: u8,
    pub properties: Seq<u8>,
}

/// A packet with its byte fields as sequences.
pub enum PacketView {
    Connect(ConnectView),
    ConnAck(ConnAckView),
    Publish(PublishView),
    PubAck(Ack),
    PubRec(Ack),
    PubRel(Ack),
    PubComp(Ack),
    Subscribe(SubscribeView),
    SubAck(SubAckView),
    Unsubscribe(UnsubscribeView),
    UnsubAck(SubAckView),
    PingReq,
    PingResp,
    Disconnect(ReasonPacketView),
    Auth(ReasonPacketView),
}

pub open spec fn opt_view(o: Option<Vec<u8>>) -> Option<Seq<u8>> {
    match o {
        Some(v) => Some(v@),
        None => None,
    }
}

impl View for Publish {
    type V = PublishView;

    open spec fn view(&self) -> PublishView {
        PublishView {
            dup: self.dup,
            qos: self.qos,
            retain: self.retain,
            topic: self.topic@,
            packet_identifier: self.packet_identifier,
            properties: self.properties@,
            payload: self.payload@,
        }
    }
}

impl View for TopicFilter {
    type V = TopicFilterView;

    open spec fn view(&self) -> TopicFilterView {
        TopicFilterView { topic: self.topic@, options: self.options }
    }
}

impl View for Subscribe {
    type V = SubscribeView;

    open spec fn view(&self) -> SubscribeView {
        SubscribeView {
            packet_identifier: self.packet_identifier,
            properties: self.properties@,
            topics: self.topics@.map_values(|t: TopicFilter| t@),
        }
    }
}

impl View for Unsubscribe {
    type V = UnsubscribeView;

    open spec fn view(&self) -> UnsubscribeView {
        UnsubscribeView {
            packet_identifier: self.packet_identifier,
            properties: self.properties@,
            topics: self.topics@.map_values(|t: Vec<u8>| t@),
        }
    }
}

impl View for SubAck {
    type V = SubAckView;

    open spec fn view(&self) -> SubAckView {
        SubAckView {
            packet_identifier: self.packet_identifier,
            properties: self.properties@,
            reason_codes: self.reason_codes@,
        }
    }
}

impl View for ConnAck {
    type V = ConnAckView;

    open spec fn view(&self) -> ConnAckView {
        ConnAckView {
            session_present: self.session_present,
            reason_code: self.reason_code,
            properties: self.properties@,
        }
    }
}

impl View for Connect {
    type V = ConnectView;

    open spec fn view(&self) -> ConnectView {
        ConnectView {
            clean_start: self.clean_start,
            keep_alive: self.keep_alive,
            properties: self.properties@,
            client_id: self.client_id@,
            username: opt_view(self.username),
            password: opt_view(self.password),
        }
    }
}

impl View for ReasonPacket {
    type V = ReasonPacketView;

    open spec fn view(&self) -> ReasonPacketView {
        ReasonPacketView { reason_code: self.reason_code, properties: self.properties@ }
    }
}

impl View for Packet {
    type V = PacketView;

    open spec fn view(&self) -> PacketView {
        match self {
            Packet::Connect(c) => PacketView::Connect(c@),
            Packet::ConnAck(c) => PacketView::ConnAck(c@),
            Packet::Publish(p) => PacketView::Publish(p@),
            Packet::PubAck(a) => PacketView::PubAck(*a),
            Packet::PubRec(a) => PacketView::PubRec(*a),
            Packet::PubRel(a) => PacketView::PubRel(*a),
            Packet::PubComp(a) => PacketView::PubComp(*a),
            Packet::Subscribe(x) => PacketView::Subscribe(x@),
            Packet::SubAck(x) => PacketView::SubAck(x@),
            Packet::Unsubscribe(x) => PacketView::Unsubscribe(x@),
            Packet::UnsubAck(x) => PacketView::UnsubAck(x@),
            Packet::PingReq => PacketView::PingReq,
            Packet::PingResp => PacketView::PingResp,
            Packet::Disconnect(d) => PacketView::Disconnect(d@),
            Packet::Auth(d) => PacketView::Auth(d@),
        }
    }
}

/// Why bytes could not be read as a packet.
#[derive(Debug, Clone, Copy, PartialEq, Eq, Structural)]
pub enum DecodeError {
    /// The buffer does not hold a whole packet yet.
    NeedMore,
    /// The bytes break the wire format.
    MalformedPacket,
    /// A property other than User Property appears twice.
    ProtocolError,
}

/// Why a packet could not be written.
#[derive(Debug, Clone, Copy, PartialEq, Eq, Structural)]
pub enum EncodeError {
    /// A string is longer than 65535 bytes, the packet longer than a
    /// variable-byte integer can state, or a publish has a packet identifier
    /// although its QoS is 0 (or none although it is above 0).
    InvalidPacket,
    /// The buffer written into holds so many bytes that one more packet
    /// could overflow its length.
    BufferFull,
}

} // verus!
