//! The protocol state the event handler keeps, and its transitions on
//! packets from the network, on tracked requests from the client, and on
//! the keepalive timer.
use crate::available_packet_ids::{id_range, lemma_drop_first_to_set, AvailablePacketIds};
use crate::properties::{find_receive_maximum, receive_maximum_of};
use crate::packets::{
    Ack, Packet, Publish, PublishView, QoS, ReasonPacket, ReasonPacketView, Subscribe, SubscribeView,
    TopicFilter, Unsubscribe, PacketView,
};
use std::collections::{BTreeMap, BTreeSet};
use vstd::prelude::*;
use vstd::set_lib::{lemma_len_subset, lemma_set_disjoint_lens};

verus! {

broadcast use vstd::std_specs::btree::group_btree_axioms;

/// Reason code of a successful acknowledgement.
pub const SUCCESS: u8 = 0;

/// Reason code of a PubComp for an identifier the client does not know.
pub const PACKET_IDENTIFIER_NOT_FOUND: u8 = 0x92;

/// Why the session has to end.
#[derive(Debug, Clone, Copy, PartialEq, Eq, Structural)]
pub enum HandlerError {
    /// The peer broke the protocol's state machine.
    ProtocolError,
    /// The broker refused the connection with this reason code.
    ConnectionRefused(u8),
    /// The broker ended the session with this reason code.
    ServerDisconnect(u8),
    /// No PingResp came within the keepalive interval.
    KeepAliveTimeout,
    /// Every packet identifier is leased; the request has to wait for an
    /// acknowledgement. This one is not fatal.
    PacketIdsExhausted,
}

/// Reason code of the Disconnect sent when the peer breaks the protocol.
pub const PROTOCOL_ERROR_CODE: u8 = 0x82;

impl HandlerError {
    /// The Disconnect to send before the session ends on this error: one
    /// with reason 0x82 for a protocol error, none otherwise.
    pub fn disconnect_packet(&self) -> (r: Option<Packet>)
        ensures
            *self == HandlerError::ProtocolError ==> (r matches Some(p) && p@ == PacketView::Disconnect(
                ReasonPacketView { reason_code: PROTOCOL_ERROR_CODE, properties: Seq::empty() },
            )),
            *self != HandlerError::ProtocolError ==> r is None,
    {
        match self {
            HandlerError::ProtocolError => {
                let d = ReasonPacket { reason_code: PROTOCOL_ERROR_CODE, properties: Vec::new() };
                proof {
                    assert(d.properties@ =~= Seq::<u8>::empty());
                }
                Some(Packet::Disconnect(d))
            },
            _ => None,
        }
    }
}

/// Whether sending this tracked request ends the session: a Disconnect
/// does, once it has been handed to the network.
pub fn ends_session(p: &Packet) -> (r: bool)
    ensures
        r == (*p is Disconnect),
{
    match p {
        Packet::Disconnect(_) => true,
        _ => false,
    }
}

/// What the handler does with a packet from the network: whether the
/// application sees it (before any acknowledgement goes out), and the
/// acknowledgement to send.
#[derive(Debug)]
pub struct Incoming {
    pub deliver: bool,
    pub response: Option<Packet>,
}

/// The handler's state as plain sets and maps; the requests in flight are
/// kept whole.
pub struct StateView {
    /// Whether the ConnAck has come.
    pub connected: bool,
    /// How many identifiers may be leased at once: the smaller of the two
    /// sides' receive maximums.
    pub window: u16,
    pub await_ping_resp: bool,
    pub free: Seq<u16>,
    pub receive_maximum: u16,
    pub outgoing_sub: Map<u16, SubscribeView>,
    pub outgoing_unsub: Set<u16>,
    pub outgoing_pub: Map<u16, PublishView>,
    pub outgoing_rel: Set<u16>,
    pub incoming_pub: Set<u16>,
}

impl StateView {
    /// The identifiers lent out of the pool.
    pub open spec fn leased(self) -> Set<u16> {
        id_range(self.receive_maximum).difference(self.free.to_set())
    }

    /// Pool well formed; every identifier in flight is leased and is in
    /// flight for one purpose only.
    pub open spec fn wf(self) -> bool {
        &&& self.receive_maximum >= 1
        &&& 1 <= self.window <= self.receive_maximum
        &&& self.free.no_duplicates()
        &&& forall|i: int|
            0 <= i < self.free.len() ==> 1 <= #[trigger] self.free[i] <= self.receive_maximum
        &&& self.outgoing_sub.dom().subset_of(self.leased())
        &&& self.outgoing_unsub.subset_of(self.leased())
        &&& self.outgoing_pub.dom().subset_of(self.leased())
        &&& self.outgoing_rel.subset_of(self.leased())
        &&& self.outgoing_sub.dom().disjoint(self.outgoing_unsub)
        &&& self.outgoing_sub.dom().disjoint(self.outgoing_pub.dom())
        &&& self.outgoing_sub.dom().disjoint(self.outgoing_rel)
        &&& self.outgoing_unsub.disjoint(self.outgoing_pub.dom())
        &&& self.outgoing_unsub.disjoint(self.outgoing_rel)
        &&& self.outgoing_pub.dom().disjoint(self.outgoing_rel)
    }

    /// Gives `id` back to the pool.
    pub open spec fn release(self, id: u16) -> StateView {
        StateView { free: self.free.push(id), ..self }
    }
}

pub open spec fn no_reply() -> Incoming {
    Incoming { deliver: false, response: None }
}

pub open spec fn deliver_only() -> Incoming {
    Incoming { deliver: true, response: None }
}

/// The handler's transition on a packet from the network.
pub open spec fn incoming_step(v: StateView, p: Packet) -> Result<(StateView, Incoming), HandlerError> {
    match p {
        Packet::ConnAck(c) => {
            let server_max = receive_maximum_of(c.properties@);
            if v.connected || server_max == 0 {
                Err(HandlerError::ProtocolError)
            } else if c.reason_code >= 0x80 {
                Err(HandlerError::ConnectionRefused(c.reason_code))
            } else {
                let window = if server_max < v.receive_maximum {
                    server_max as u16
                } else {
                    v.receive_maximum
                };
                Ok((StateView { connected: true, window, ..v }, deliver_only()))
            }
        },
        Packet::Publish(pb) => match (pb.qos, pb.packet_identifier) {
            (QoS::AtMostOnce, _) => Ok((v, deliver_only())),
            (QoS::AtLeastOnce, Some(id)) => Ok(
                (
                    v,
                    Incoming {
                        deliver: true,
                        response: Some(
                            Packet::PubAck(Ack { packet_identifier: id, reason_code: SUCCESS }),
                        ),
                    },
                ),
            ),
            (QoS::ExactlyOnce, Some(id)) => {
                let rec = Some(Packet::PubRec(Ack { packet_identifier: id, reason_code: SUCCESS }));
                if v.incoming_pub.contains(id) {
                    Ok((v, Incoming { deliver: false, response: rec }))
                } else {
                    Ok(
                        (
                            StateView { incoming_pub: v.incoming_pub.insert(id), ..v },
                            Incoming { deliver: true, response: rec },
                        ),
                    )
                }
            },
            _ => Err(HandlerError::ProtocolError),
        },
        Packet::PubAck(a) => if v.outgoing_pub.contains_key(a.packet_identifier) {
            Ok(
                (
                    StateView {
                        outgoing_pub: v.outgoing_pub.remove(a.packet_identifier),
                        ..v
                    }.release(a.packet_identifier),
                    no_reply(),
                ),
            )
        } else {
            Err(HandlerError::ProtocolError)
        },
        Packet::PubRec(a) => if !v.outgoing_pub.contains_key(a.packet_identifier) {
            Err(HandlerError::ProtocolError)
        } else if a.reason_code < 0x80 {
            Ok(
                (
                    StateView {
                        outgoing_pub: v.outgoing_pub.remove(a.packet_identifier),
                        outgoing_rel: v.outgoing_rel.insert(a.packet_identifier),
                        ..v
                    },
                    Incoming {
                        deliver: false,
                        response: Some(
                            Packet::PubRel(
                                Ack { packet_identifier: a.packet_identifier, reason_code: SUCCESS },
                            ),
                        ),
                    },
                ),
            )
        } else {
            Ok(
                (
                    StateView {
                        outgoing_pub: v.outgoing_pub.remove(a.packet_identifier),
                        ..v
                    }.release(a.packet_identifier),
                    no_reply(),
                ),
            )
        },
        Packet::PubRel(a) => {
            let rc = if v.incoming_pub.contains(a.packet_identifier) {
                SUCCESS
            } else {
                PACKET_IDENTIFIER_NOT_FOUND
            };
            Ok(
                (
                    StateView { incoming_pub: v.incoming_pub.remove(a.packet_identifier), ..v },
                    Incoming {
                        deliver: false,
                        response: Some(
                            Packet::PubComp(
                                Ack { packet_identifier: a.packet_identifier, reason_code: rc },
                            ),
                        ),
                    },
                ),
            )
        },
        Packet::PubComp(a) => if v.outgoing_rel.contains(a.packet_identifier) {
            Ok(
                (
                    StateView {
                        outgoing_rel: v.outgoing_rel.remove(a.packet_identifier),
                        ..v
                    }.release(a.packet_identifier),
                    no_reply(),
                ),
            )
        } else {
            Err(HandlerError::ProtocolError)
        },
        Packet::SubAck(s) => if v.outgoing_sub.contains_key(s.packet_identifier)
            && v.outgoing_sub[s.packet_identifier].topics.len() == s.reason_codes@.len() {
            Ok(
                (
                    StateView {
                        outgoing_sub: v.outgoing_sub.remove(s.packet_identifier),
                        ..v
                    }.release(s.packet_identifier),
                    deliver_only(),
                ),
            )
        } else {
            Err(HandlerError::ProtocolError)
        },
        Packet::UnsubAck(s) => if v.outgoing_unsub.contains(s.packet_identifier) {
            Ok(
                (
                    StateView {
                        outgoing_unsub: v.outgoing_unsub.remove(s.packet_identifier),
                        ..v
                    }.release(s.packet_identifier),
                    deliver_only(),
                ),
            )
        } else {
            Err(HandlerError::ProtocolError)
        },
        Packet::PingResp => if v.await_ping_resp {
            Ok((StateView { await_ping_resp: false, ..v }, no_reply()))
        } else {
            Err(HandlerError::ProtocolError)
        },
        Packet::Disconnect(d) => Err(HandlerError::ServerDisconnect(d.reason_code)),
        Packet::Auth(_) => Ok((v, deliver_only())),
        _ => Err(HandlerError::ProtocolError),
    }
}

proof fn lemma_release_wf(v: StateView, id: u16)
    requires
        v.wf(),
        v.leased().contains(id),
        !v.outgoing_sub.contains_key(id),
        !v.outgoing_unsub.contains(id),
        !v.outgoing_pub.contains_key(id),
        !v.outgoing_rel.contains(id),
    ensures
        v.release(id).wf(),
        v.release(id).leased() == v.leased().remove(id),
{
    let w = v.release(id);
    v.free.lemma_push_to_set_commute(id);
    assert(w.leased() =~= v.leased().remove(id));
    assert(!v.free.contains(id)) by {
        if v.free.contains(id) {
            assert(v.free.to_set().contains(id));
        }
    }
    assert(w.free.no_duplicates()) by {
        assert forall|i: int, j: int| 0 <= i < j < w.free.len() implies w.free[i] != w.free[j] by {
            if j == v.free.len() {
                assert(v.free[i] == w.free[i]);
                assert(v.free.contains(v.free[i]));
            }
        }
    }
    assert forall|i: int| 0 <= i < w.free.len() implies 1 <= #[trigger] w.free[i] <= w.receive_maximum by {
        if i < v.free.len() {
            assert(w.free[i] == v.free[i]);
        }
    }
}

/// Every transition on a packet from the network keeps the state well
/// formed: identifiers in flight stay leased and in flight for one purpose.
pub proof fn lemma_incoming_step_wf(v: StateView, p: Packet)
    requires
        v.wf(),
    ensures
        incoming_step(v, p) matches Ok((w, _)) ==> w.wf(),
{
    match p {
        Packet::PubAck(a) => {
            let id = a.packet_identifier;
            if v.outgoing_pub.contains_key(id) {
                let w = StateView { outgoing_pub: v.outgoing_pub.remove(id), ..v };
                assert(w.leased() == v.leased());
                lemma_release_wf(w, id);
            }
        },
        Packet::PubRec(a) => {
            let id = a.packet_identifier;
            if v.outgoing_pub.contains_key(id) {
                let w = StateView { outgoing_pub: v.outgoing_pub.remove(id), ..v };
                assert(w.leased() == v.leased());
                if a.reason_code >= 0x80 {
                    lemma_release_wf(w, id);
                }
            }
        },
        Packet::PubComp(a) => {
            let id = a.packet_identifier;
            if v.outgoing_rel.contains(id) {
                let w = StateView { outgoing_rel: v.outgoing_rel.remove(id), ..v };
                assert(w.leased() == v.leased());
                lemma_release_wf(w, id);
            }
        },
        Packet::SubAck(s) => {
            let id = s.packet_identifier;
            if v.outgoing_sub.contains_key(id) {
                let w = StateView { outgoing_sub: v.outgoing_sub.remove(id), ..v };
                assert(w.leased() == v.leased());
                lemma_release_wf(w, id);
            }
        },
        Packet::UnsubAck(s) => {
            let id = s.packet_identifier;
            if v.outgoing_unsub.contains(id) {
                let w = StateView { outgoing_unsub: v.outgoing_unsub.remove(id), ..v };
                assert(w.leased() == v.leased());
                lemma_release_wf(w, id);
            }
        },
        _ => {},
    }
}

/// Whether as many identifiers are leased as the window allows.
pub open spec fn window_full(v: StateView) -> bool {
    v.free.len() + v.window <= v.receive_maximum
}

/// The handler's transition on a tracked request from the client: unless
/// the window is full, a QoS 1 or 2 publish, a Subscribe or an Unsubscribe
/// takes the identifier that has been free longest and is recorded as in flight; the packet to send
/// carries that identifier (and, for a publish, a cleared dup flag).
/// Anything else is passed on as it is.
pub open spec fn outgoing_step(v: StateView, p: Packet) -> Result<(StateView, Packet), HandlerError> {
    match p {
        Packet::Publish(pb) => if pb.qos == QoS::AtMostOnce {
            Ok((v, p))
        } else if window_full(v) {
            Err(HandlerError::PacketIdsExhausted)
        } else {
            let id = v.free[0];
            Ok(
                (
                    StateView {
                        free: v.free.drop_first(),
                        outgoing_pub: v.outgoing_pub.insert(
                            id,
                            Publish { dup: false, packet_identifier: Some(id), ..pb }@,
                        ),
                        ..v
                    },
                    Packet::Publish(Publish { dup: false, packet_identifier: Some(id), ..pb }),
                ),
            )
        },
        Packet::Subscribe(sb) => if window_full(v) {
            Err(HandlerError::PacketIdsExhausted)
        } else {
            let id = v.free[0];
            Ok(
                (
                    StateView {
                        free: v.free.drop_first(),
                        outgoing_sub: v.outgoing_sub.insert(
                            id,
                            Subscribe { packet_identifier: id, ..sb }@,
                        ),
                        ..v
                    },
                    Packet::Subscribe(Subscribe { packet_identifier: id, ..sb }),
                ),
            )
        },
        Packet::Unsubscribe(u) => if window_full(v) {
            Err(HandlerError::PacketIdsExhausted)
        } else {
            let id = v.free[0];
            Ok(
                (
                    StateView {
                        free: v.free.drop_first(),
                        outgoing_unsub: v.outgoing_unsub.insert(id),
                        ..v
                    },
                    Packet::Unsubscribe(Unsubscribe { packet_identifier: id, ..u }),
                ),
            )
        },
        _ => Ok((v, p)),
    }
}

/// The keepalive check, `elapsed_ms` after the last packet was written.
/// A keepalive of 0 switches it off.
pub open spec fn keepalive_step(v: StateView, elapsed_ms: u64, keep_alive_s: u16) -> Result<
    (StateView, Option<Packet>),
    HandlerError,
> {
    if keep_alive_s == 0 || elapsed_ms < keep_alive_s * 1000 {
        Ok((v, None))
    } else if v.await_ping_resp {
        Err(HandlerError::KeepAliveTimeout)
    } else {
        Ok((StateView { await_ping_resp: true, ..v }, Some(Packet::PingReq)))
    }
}

/// How long the handler waits before its next keepalive check: at once
/// when the interval has already passed, else half the interval.
pub fn keepalive_wait_ms(elapsed_ms: u64, keep_alive_s: u16) -> (r: u64)
    requires
        keep_alive_s > 0,
    ensures
        r == if elapsed_ms >= keep_alive_s * 1000 {
            0
        } else {
            keep_alive_s * 500
        },
{
    if elapsed_ms >= keep_alive_s as u64 * 1000 {
        0
    } else {
        keep_alive_s as u64 * 500
    }
}

/// A tracked request keeps the state well formed: the identifier it takes
/// was free, so it is in flight for this request alone.
pub proof fn lemma_outgoing_step_wf(v: StateView, p: Packet)
    requires
        v.wf(),
    ensures
        outgoing_step(v, p) matches Ok((w, _)) ==> w.wf(),
{
    if v.free.len() > 0 {
        let id = v.free[0];
        let d = v.free.drop_first();
        lemma_drop_first_to_set(v.free);
        let w = StateView { free: d, ..v };
        assert(v.free.to_set().contains(id)) by {
            assert(v.free[0] == id);
        }
        assert(w.leased() =~= v.leased().insert(id));
        assert(!v.leased().contains(id));
        assert forall|i: int| 0 <= i < d.len() implies 1 <= #[trigger] d[i] <= v.receive_maximum by {
            assert(d[i] == v.free[i + 1]);
        }
        match p {
            Packet::Publish(pb) => {
                if pb.qos != QoS::AtMostOnce {
                    let x = StateView {
                        outgoing_pub: v.outgoing_pub.insert(
                            id,
                            Publish { dup: false, packet_identifier: Some(id), ..pb }@,
                        ),
                        ..w
                    };
                    assert(x.outgoing_pub.dom() =~= v.outgoing_pub.dom().insert(id));
                }
            },
            Packet::Subscribe(sb) => {
                let x = StateView {
                    outgoing_sub: v.outgoing_sub.insert(id, Subscribe { packet_identifier: id, ..sb }@),
                    ..w
                };
                assert(x.outgoing_sub.dom() =~= v.outgoing_sub.dom().insert(id));
            },
            Packet::Unsubscribe(u) => {
                let x = StateView { outgoing_unsub: v.outgoing_unsub.insert(id), ..w };
                assert(x.outgoing_sub.dom().disjoint(x.outgoing_unsub));
            },
            _ => {},
        }
    }
}

/// Whether `sent` is the message `submitted` as it goes on the wire: same
/// topic, payload, QoS, retain flag and properties.
pub open spec fn same_message(sent: Packet, submitted: Packet) -> bool {
    match (sent, submitted) {
        (Packet::Publish(a), Packet::Publish(b)) => a.topic == b.topic && a.payload == b.payload
            && a.qos == b.qos && a.retain == b.retain && a.properties == b.properties,
        _ => false,
    }
}

/// Submits the requests of `ps` in order; the packets sent, in order.
pub open spec fn run_outgoing(v: StateView, ps: Seq<Packet>) -> Result<(StateView, Seq<Packet>), HandlerError>
    decreases ps.len(),
{
    if ps.len() == 0 {
        Ok((v, Seq::empty()))
    } else {
        match outgoing_step(v, ps[0]) {
            Ok((w, o)) => match run_outgoing(w, ps.drop_first()) {
                Ok((x, os)) => Ok((x, seq![o] + os)),
                Err(e) => Err(e),
            },
            Err(e) => Err(e),
        }
    }
}

/// Publishes submitted one after another go on the wire in the order they
/// were submitted, each carrying its own message.
pub proof fn lemma_publish_order_kept(v: StateView, ps: Seq<Packet>)
    requires
        forall|i: int| 0 <= i < ps.len() ==> #[trigger] ps[i] matches Packet::Publish(_),
    ensures
        run_outgoing(v, ps) matches Ok((_, os)) ==> os.len() == ps.len() && forall|i: int|
            0 <= i < ps.len() ==> same_message(#[trigger] os[i], ps[i]),
    decreases ps.len(),
{
    if ps.len() > 0 {
        if let Ok((w, o)) = outgoing_step(v, ps[0]) {
            let rest = ps.drop_first();
            assert forall|i: int| 0 <= i < rest.len() implies #[trigger] rest[i] matches Packet::Publish(_) by {
                assert(rest[i] == ps[i + 1]);
            }
            lemma_publish_order_kept(w, rest);
            if let Ok((x, os)) = run_outgoing(w, rest) {
                let all = seq![o] + os;
                assert forall|i: int| 0 <= i < ps.len() implies same_message(#[trigger] all[i], ps[i]) by {
                    if i > 0 {
                        assert(all[i] == os[i - 1]);
                        assert(ps[i] == rest[i - 1]);
                    } else {
                        assert(ps[0] matches Packet::Publish(_));
                    }
                }
            }
        }
    }
}

/// A QoS 1 publish holds its identifier until one PubAck for it comes;
/// that PubAck gives it back, and a second one is a protocol error.
pub proof fn lemma_qos1_released_by_one_puback(v: StateView, pb: Publish, rc: u8)
    requires
        v.wf(),
        pb.qos == QoS::AtLeastOnce,
        !window_full(v),
    ensures
        ({
            let id = v.free[0];
            let ack = Packet::PubAck(Ack { packet_identifier: id, reason_code: rc });
            &&& outgoing_step(v, Packet::Publish(pb)) matches Ok((v1, _))
            &&& v1.leased() == v.leased().insert(id)
            &&& incoming_step(v1, ack) matches Ok((v2, _))
            &&& v2.free == v1.free.push(id)
            &&& v2.leased() == v.leased()
            &&& incoming_step(v2, ack) == Err::<(StateView, Incoming), HandlerError>(HandlerError::ProtocolError)
        }),
{
    let id = v.free[0];
    lemma_outgoing_step_wf(v, Packet::Publish(pb));
    lemma_drop_first_to_set(v.free);
    assert(v.free.to_set().contains(id)) by {
        assert(v.free[0] == id);
    }
    let v1 = StateView {
        free: v.free.drop_first(),
        outgoing_pub: v.outgoing_pub.insert(id, Publish { dup: false, packet_identifier: Some(id), ..pb }@),
        ..v
    };
    assert(v1.leased() =~= v.leased().insert(id));
    let w = StateView { outgoing_pub: v1.outgoing_pub.remove(id), ..v1 };
    assert(!v.outgoing_pub.contains_key(id));
    assert(w.outgoing_pub =~= v.outgoing_pub);
    lemma_release_wf(w, id);
    assert(w.release(id).leased() =~= v.leased());
}

/// A QoS 2 publish holds its identifier through a successful PubRec (which
/// is answered with a PubRel) until one PubComp gives it back; a second
/// PubComp is a protocol error. A PubRec with a failure code gives it back
/// at once.
pub proof fn lemma_qos2_released_by_one_pubcomp(v: StateView, pb: Publish, rec_rc: u8, comp_rc: u8)
    requires
        v.wf(),
        pb.qos == QoS::ExactlyOnce,
        !window_full(v),
    ensures
        ({
            let id = v.free[0];
            let rec = Packet::PubRec(Ack { packet_identifier: id, reason_code: rec_rc });
            let comp = Packet::PubComp(Ack { packet_identifier: id, reason_code: comp_rc });
            &&& outgoing_step(v, Packet::Publish(pb)) matches Ok((v1, _))
            &&& v1.leased() == v.leased().insert(id)
            &&& incoming_step(v1, rec) matches Ok((v2, o2))
            &&& if rec_rc < 0x80 {
                &&& v2.leased() == v1.leased()
                &&& o2.response == Some(
                    Packet::PubRel(Ack { packet_identifier: id, reason_code: SUCCESS }),
                )
                &&& incoming_step(v2, comp) matches Ok((v3, _))
                &&& v3.free == v2.free.push(id)
                &&& v3.leased() == v.leased()
                &&& incoming_step(v3, comp) == Err::<(StateView, Incoming), HandlerError>(
                    HandlerError::ProtocolError,
                )
            } else {
                &&& v2.free == v1.free.push(id)
                &&& v2.leased() == v.leased()
                &&& incoming_step(v2, comp) == Err::<(StateView, Incoming), HandlerError>(
                    HandlerError::ProtocolError,
                )
            }
        }),
{
    let id = v.free[0];
    lemma_drop_first_to_set(v.free);
    assert(v.free.to_set().contains(id)) by {
        assert(v.free[0] == id);
    }
    let v1 = StateView {
        free: v.free.drop_first(),
        outgoing_pub: v.outgoing_pub.insert(id, Publish { dup: false, packet_identifier: Some(id), ..pb }@),
        ..v
    };
    assert(v1.leased() =~= v.leased().insert(id));
    assert(!v.outgoing_pub.contains_key(id));
    assert(!v.outgoing_rel.contains(id));
    if rec_rc < 0x80 {
        let v2 = StateView {
            outgoing_pub: v1.outgoing_pub.remove(id),
            outgoing_rel: v1.outgoing_rel.insert(id),
            ..v1
        };
        let w = StateView { outgoing_rel: v2.outgoing_rel.remove(id), ..v2 };
        assert(w.outgoing_pub =~= v.outgoing_pub);
        assert(w.outgoing_rel =~= v.outgoing_rel);
        lemma_release_wf(w, id);
        assert(w.release(id).leased() =~= v.leased());
    } else {
        let w = StateView { outgoing_pub: v1.outgoing_pub.remove(id), ..v1 };
        assert(w.outgoing_pub =~= v.outgoing_pub);
        lemma_release_wf(w, id);
        assert(w.release(id).leased() =~= v.leased());
    }
}

/// A copy of a Subscribe, filter by filter.
fn copy_subscribe(s: &Subscribe) -> (r: Subscribe)
    ensures
        r@ == s@,
{
    let mut topics: Vec<TopicFilter> = Vec::new();
    let mut i: usize = 0;
    while i < s.topics.len()
        invariant
            i <= s.topics@.len(),
            topics@.len() == i,
            forall|j: int| 0 <= j < i ==> (#[trigger] topics@[j])@ == s.topics@[j]@,
        decreases s.topics@.len() - i,
    {
        let t = &s.topics[i];
        topics.push(TopicFilter { topic: t.topic.clone(), options: t.options });
        i = i + 1;
    }
    let r = Subscribe { packet_identifier: s.packet_identifier, properties: s.properties.clone(), topics };
    proof {
        assert(r.topics@.map_values(|t: TopicFilter| t@) =~= s.topics@.map_values(|t: TopicFilter| t@));
    }
    r
}

/// A copy of a Publish.
fn copy_publish(p: &Publish) -> (r: Publish)
    ensures
        r@ == p@,
{
    Publish {
        dup: p.dup,
        qos: p.qos,
        retain: p.retain,
        topic: p.topic.clone(),
        packet_identifier: p.packet_identifier,
        properties: p.properties.clone(),
        payload: p.payload.clone(),
    }
}

proof fn lemma_id_range_len(k: u16)
    ensures
        id_range(k).finite(),
        id_range(k).len() == k,
    decreases k,
{
    if k == 0 {
        assert(id_range(k) =~= Set::<u16>::empty());
    } else {
        let j = (k - 1) as u16;
        lemma_id_range_len(j);
        assert(id_range(k) =~= id_range(j).insert(k));
    }
}

/// No more requests are in flight than the receive maximum allows.
pub proof fn lemma_in_flight_bounded(v: StateView)
    requires
        v.wf(),
    ensures
        v.outgoing_sub.dom().len() + v.outgoing_unsub.len() + v.outgoing_pub.dom().len()
            + v.outgoing_rel.len() <= v.receive_maximum,
{
    lemma_id_range_len(v.receive_maximum);
    let range = id_range(v.receive_maximum);
    let a = v.outgoing_sub.dom();
    let b = v.outgoing_unsub;
    let c = v.outgoing_pub.dom();
    let d = v.outgoing_rel;
    lemma_len_subset(a, range);
    lemma_len_subset(b, range);
    lemma_len_subset(c, range);
    lemma_len_subset(d, range);
    lemma_set_disjoint_lens(a, b);
    lemma_set_disjoint_lens(a + b, c);
    lemma_set_disjoint_lens(a + b + c, d);
    assert((a + b + c + d).subset_of(range));
    lemma_len_subset(a + b + c + d, range);
}

/// The handler's protocol state.
#[derive(Debug)]
pub struct State {
    /// Whether the ConnAck has come.
    pub connected: bool,
    /// The smaller of the two sides' receive maximums.
    pub window: u16,
    /// Whether a PingReq is waiting for its PingResp.
    pub await_ping_resp: bool,
    pub apkid: AvailablePacketIds,
    /// Subscribes sent and not acknowledged yet.
    pub outgoing_sub: BTreeMap<u16, Subscribe>,
    /// Unsubscribes sent and not acknowledged yet.
    pub outgoing_unsub: BTreeMap<u16, Unsubscribe>,
    /// QoS 1 and 2 publishes sent, awaiting PubAck or PubRec.
    pub outgoing_pub: BTreeMap<u16, Publish>,
    /// QoS 2 publishes that got their PubRec, awaiting PubComp.
    pub outgoing_rel: BTreeSet<u16>,
    /// QoS 2 publishes received, awaiting PubRel.
    pub incoming_pub: BTreeSet<u16>,
}

impl View for State {
    type V = StateView;

    open spec fn view(&self) -> StateView {
        StateView {
            connected: self.connected,
            window: self.window,
            await_ping_resp: self.await_ping_resp,
            free: self.apkid.free(),
            receive_maximum: self.apkid.max(),
            outgoing_sub: self.outgoing_sub@.map_values(|s: Subscribe| s@),
            outgoing_unsub: self.outgoing_unsub@.dom(),
            outgoing_pub: self.outgoing_pub@.map_values(|p: Publish| p@),
            outgoing_rel: self.outgoing_rel@,
            incoming_pub: self.incoming_pub@,
        }
    }
}

impl State {
    pub open spec fn wf(&self) -> bool {
        self.apkid.wf() && self@.wf()
    }

    /// A fresh session: every identifier of `1..=receive_maximum` free,
    /// nothing in flight.
    pub fn new(receive_maximum: u16) -> (r: Self)
        requires
            receive_maximum >= 1,
        ensures
            r.wf(),
            r@.receive_maximum == receive_maximum,
            r@.free == Seq::new(receive_maximum as nat, |i: int| (i + 1) as u16),
            !r@.await_ping_resp,
            !r@.connected,
            r@.window == receive_maximum,
            r@.outgoing_sub == Map::<u16, SubscribeView>::empty(),
            r@.outgoing_unsub == Set::<u16>::empty(),
            r@.outgoing_pub == Map::<u16, PublishView>::empty(),
            r@.outgoing_rel == Set::<u16>::empty(),
            r@.incoming_pub == Set::<u16>::empty(),
    {
        let apkid = AvailablePacketIds::new(receive_maximum);
        let r = State {
            connected: false,
            window: receive_maximum,
            await_ping_resp: false,
            apkid,
            outgoing_sub: BTreeMap::new(),
            outgoing_unsub: BTreeMap::new(),
            outgoing_pub: BTreeMap::new(),
            outgoing_rel: BTreeSet::new(),
            incoming_pub: BTreeSet::new(),
        };
        proof {
            assert(r@.outgoing_sub =~= Map::<u16, SubscribeView>::empty());
            assert(r@.outgoing_unsub =~= Set::<u16>::empty());
            assert(r@.outgoing_pub =~= Map::<u16, PublishView>::empty());
        }
        r
    }

    /// Applies a packet from the network to the state: what the
    /// application sees and what is sent back follow `incoming_step`. On an
    /// error the state is left as it was.
    pub fn handle_incoming_packet(&mut self, packet: Packet) -> (r: Result<Incoming, HandlerError>)
        requires
            old(self).wf(),
        ensures
            final(self).wf(),
            match r {
                Ok(o) => incoming_step(old(self)@, packet) == Ok::<(StateView, Incoming), HandlerError>(
                    (final(self)@, o),
                ),
                Err(e) => incoming_step(old(self)@, packet) == Err::<(StateView, Incoming), HandlerError>(e)
                    && final(self)@ == old(self)@,
            },
    {
        let ghost v0 = self@;
        proof {
            lemma_incoming_step_wf(v0, packet);
        }
        match packet {
            Packet::ConnAck(c) => {
                let server_max = find_receive_maximum(c.properties.as_slice());
                if self.connected || server_max == 0 {
                    Err(HandlerError::ProtocolError)
                } else if c.reason_code >= 0x80 {
                    Err(HandlerError::ConnectionRefused(c.reason_code))
                } else {
                    let rm = self.apkid.receive_maximum();
                    self.window = if server_max < rm as u32 {
                        server_max as u16
                    } else {
                        rm
                    };
                    self.connected = true;
                    Ok(Incoming { deliver: true, response: None })
                }
            },
            Packet::Publish(pb) => match (pb.qos, pb.packet_identifier) {
                (QoS::AtMostOnce, _) => Ok(Incoming { deliver: true, response: None }),
                (QoS::AtLeastOnce, Some(id)) => Ok(
                    Incoming {
                        deliver: true,
                        response: Some(Packet::PubAck(Ack { packet_identifier: id, reason_code: SUCCESS })),
                    },
                ),
                (QoS::ExactlyOnce, Some(id)) => {
                    let rec = Some(Packet::PubRec(Ack { packet_identifier: id, reason_code: SUCCESS }));
                    if self.incoming_pub.contains(&id) {
                        Ok(Incoming { deliver: false, response: rec })
                    } else {
                        self.incoming_pub.insert(id);
                        Ok(Incoming { deliver: true, response: rec })
                    }
                },
                _ => Err(HandlerError::ProtocolError),
            },
            Packet::PubAck(a) => {
                let id = a.packet_identifier;
                if self.outgoing_pub.contains_key(&id) {
                    self.outgoing_pub.remove(&id);
                    self.apkid.release(id);
                    proof {
                        assert(self@.outgoing_pub =~= v0.outgoing_pub.remove(id));
                    }
                    Ok(Incoming { deliver: false, response: None })
                } else {
                    Err(HandlerError::ProtocolError)
                }
            },
            Packet::PubRec(a) => {
                let id = a.packet_identifier;
                if !self.outgoing_pub.contains_key(&id) {
                    Err(HandlerError::ProtocolError)
                } else if a.reason_code < 0x80 {
                    self.outgoing_pub.remove(&id);
                    self.outgoing_rel.insert(id);
                    proof {
                        assert(self@.outgoing_pub =~= v0.outgoing_pub.remove(id));
                    }
                    Ok(
                        Incoming {
                            deliver: false,
                            response: Some(Packet::PubRel(Ack { packet_identifier: id, reason_code: SUCCESS })),
                        },
                    )
                } else {
                    self.outgoing_pub.remove(&id);
                    self.apkid.release(id);
                    proof {
                        assert(self@.outgoing_pub =~= v0.outgoing_pub.remove(id));
                    }
                    Ok(Incoming { deliver: false, response: None })
                }
            },
            Packet::PubRel(a) => {
                let id = a.packet_identifier;
                let rc = if self.incoming_pub.remove(&id) {
                    SUCCESS
                } else {
                    PACKET_IDENTIFIER_NOT_FOUND
                };
                Ok(
                    Incoming {
                        deliver: false,
                        response: Some(Packet::PubComp(Ack { packet_identifier: id, reason_code: rc })),
                    },
                )
            },
            Packet::PubComp(a) => {
                let id = a.packet_identifier;
                if self.outgoing_rel.remove(&id) {
                    self.apkid.release(id);
                    Ok(Incoming { deliver: false, response: None })
                } else {
                    proof {
                        assert(self.outgoing_rel@ =~= v0.outgoing_rel);
                    }
                    Err(HandlerError::ProtocolError)
                }
            },
            Packet::SubAck(s) => {
                let id = s.packet_identifier;
                let matches_request = match self.outgoing_sub.get(&id) {
                    Some(sub) => sub.topics.len() == s.reason_codes.len(),
                    None => false,
                };
                if matches_request {
                    self.outgoing_sub.remove(&id);
                    self.apkid.release(id);
                    proof {
                        assert(self@.outgoing_sub =~= v0.outgoing_sub.remove(id));
                    }
                    Ok(Incoming { deliver: true, response: None })
                } else {
                    Err(HandlerError::ProtocolError)
                }
            },
            Packet::UnsubAck(s) => {
                let id = s.packet_identifier;
                if self.outgoing_unsub.contains_key(&id) {
                    self.outgoing_unsub.remove(&id);
                    self.apkid.release(id);
                    proof {
                        assert(self@.outgoing_unsub =~= v0.outgoing_unsub.remove(id));
                    }
                    Ok(Incoming { deliver: true, response: None })
                } else {
                    Err(HandlerError::ProtocolError)
                }
            },
            Packet::PingResp => {
                if self.await_ping_resp {
                    self.await_ping_resp = false;
                    Ok(Incoming { deliver: false, response: None })
                } else {
                    Err(HandlerError::ProtocolError)
                }
            },
            Packet::Disconnect(d) => Err(HandlerError::ServerDisconnect(d.reason_code)),
            Packet::Auth(_) => Ok(Incoming { deliver: true, response: None }),
            _ => Err(HandlerError::ProtocolError),
        }
    }

    /// Applies a tracked request from the client: the packet returned goes
    /// to the network, as `outgoing_step` says. When every identifier is
    /// leased the request is refused and the state left as it was; it can be
    /// submitted again once an acknowledgement releases one.
    pub fn handle_outgoing_packet(&mut self, packet: Packet) -> (r: Result<Packet, HandlerError>)
        requires
            old(self).wf(),
        ensures
            final(self).wf(),
            match r {
                Ok(out) => outgoing_step(old(self)@, packet) == Ok::<(StateView, Packet), HandlerError>(
                    (final(self)@, out),
                ),
                Err(e) => outgoing_step(old(self)@, packet) == Err::<(StateView, Packet), HandlerError>(e)
                    && final(self)@ == old(self)@,
            },
    {
        let ghost v0 = self@;
        proof {
            lemma_outgoing_step_wf(v0, packet);
        }
        let full = self.apkid.free_count() <= (self.apkid.receive_maximum() - self.window) as usize;
        match packet {
            Packet::Publish(pb) => {
                if pb.qos == QoS::AtMostOnce {
                    return Ok(Packet::Publish(pb));
                }
                if full {
                    return Err(HandlerError::PacketIdsExhausted);
                }
                match self.apkid.try_acquire() {
                    Some(id) => {
                        let out = Publish { dup: false, packet_identifier: Some(id), ..pb };
                        self.outgoing_pub.insert(id, copy_publish(&out));
                        proof {
                            assert(self@.outgoing_pub =~= v0.outgoing_pub.insert(id, out@));
                        }
                        Ok(Packet::Publish(out))
                    },
                    None => Err(HandlerError::PacketIdsExhausted),
                }
            },
            Packet::Subscribe(sb) => if full {
                Err(HandlerError::PacketIdsExhausted)
            } else {
                match self.apkid.try_acquire() {
                Some(id) => {
                    let out = Subscribe { packet_identifier: id, ..sb };
                    self.outgoing_sub.insert(id, copy_subscribe(&out));
                    proof {
                        assert(self@.outgoing_sub =~= v0.outgoing_sub.insert(id, out@));
                    }
                    Ok(Packet::Subscribe(out))
                },
                None => Err(HandlerError::PacketIdsExhausted),
                }
            },
            Packet::Unsubscribe(u) => if full {
                Err(HandlerError::PacketIdsExhausted)
            } else {
                match self.apkid.try_acquire() {
                Some(id) => {
                    let out = Unsubscribe { packet_identifier: id, ..u };
                    self.outgoing_unsub.insert(id, out.clone());
                    Ok(Packet::Unsubscribe(out))
                },
                None => Err(HandlerError::PacketIdsExhausted),
                }
            },
            other => Ok(other),
        }
    }

    /// The keepalive check, `elapsed_ms` after the last network write: a
    /// PingReq to send when the interval has passed, and a timeout when the
    /// previous PingReq is still unanswered by then.
    pub fn handle_keepalive(&mut self, elapsed_ms: u64, keep_alive_s: u16) -> (r: Result<Option<Packet>, HandlerError>)
        requires
            old(self).wf(),
        ensures
            final(self).wf(),
            match r {
                Ok(out) => keepalive_step(old(self)@, elapsed_ms, keep_alive_s) == Ok::<(StateView, Option<Packet>), HandlerError>(
                    (final(self)@, out),
                ),
                Err(e) => keepalive_step(old(self)@, elapsed_ms, keep_alive_s) == Err::<(StateView, Option<Packet>), HandlerError>(e)
                    && final(self)@ == old(self)@,
            },
    {
        if keep_alive_s == 0 || elapsed_ms < keep_alive_s as u64 * 1000 {
            Ok(None)
        } else if self.await_ping_resp {
            Err(HandlerError::KeepAliveTimeout)
        } else {
            self.await_ping_resp = true;
            Ok(Some(Packet::PingReq))
        }
    }
}

} // verus!
