use mqrstt::available_packet_ids::AvailablePacketIds;
use mqrstt::client::{check_publish_limits, disconnect_packet, publish_packet, subscribe_packet, unsubscribe_packet, ClientError};
use mqrstt::network::{expect_connack, read_packets, ConnectionError};
use mqrstt::packets::{Ack, ConnAck, DecodeError, Packet, Publish, QoS, ReasonPacket, SubAck};
use mqrstt::state::{ends_session, keepalive_wait_ms, HandlerError, State};

fn connack(rc: u8) -> Packet {
    Packet::ConnAck(ConnAck { session_present: false, reason_code: rc, properties: vec![] })
}

fn incoming_publish(qos: QoS, dup: bool, pkid: Option<u16>) -> Packet {
    Packet::Publish(Publish {
        dup,
        qos,
        retain: false,
        topic: b"t".to_vec(),
        packet_identifier: pkid,
        properties: vec![],
        payload: b"p".to_vec(),
    })
}

fn submit(state: &mut State, qos: QoS, topic: &str, payload: &str) -> Result<Packet, HandlerError> {
    let p = publish_packet(qos, false, topic.as_bytes().to_vec(), payload.as_bytes().to_vec()).unwrap();
    state.handle_outgoing_packet(p)
}

fn pkid_of(p: &Packet) -> Option<u16> {
    match p {
        Packet::Publish(pb) => pb.packet_identifier,
        _ => None,
    }
}

fn ack(id: u16, rc: u8) -> Ack {
    Ack { packet_identifier: id, reason_code: rc }
}

#[test]
fn connect_then_publish_qos0() {
    let mut state = State::new(10);
    let r = state.handle_incoming_packet(connack(0)).unwrap();
    assert!(r.deliver);
    assert!(r.response.is_none());
    let out = submit(&mut state, QoS::AtMostOnce, "hello", "world").unwrap();
    match &out {
        Packet::Publish(pb) => {
            assert_eq!(pb.qos, QoS::AtMostOnce);
            assert_eq!(pb.topic, b"hello".to_vec());
            assert_eq!(pb.payload, b"world".to_vec());
            assert_eq!(pb.packet_identifier, None);
        }
        _ => panic!("expected a publish"),
    }
    assert!(state.outgoing_pub.is_empty());
    assert_eq!(state.apkid.free_ids(), (1..=10).collect::<Vec<u16>>());
}

#[test]
fn refused_connack_is_fatal() {
    let mut state = State::new(10);
    assert_eq!(state.handle_incoming_packet(connack(0x87)).unwrap_err(), HandlerError::ConnectionRefused(0x87));
}

#[test]
fn qos1_publish_released_by_puback() {
    let mut state = State::new(10);
    let out = submit(&mut state, QoS::AtLeastOnce, "t", "x").unwrap();
    assert_eq!(pkid_of(&out), Some(1));
    assert!(state.outgoing_pub.contains_key(&1));
    assert!(!state.apkid.free_ids().contains(&1));
    let r = state.handle_incoming_packet(Packet::PubAck(ack(1, 0))).unwrap();
    assert!(r.response.is_none());
    assert!(state.outgoing_pub.is_empty());
    assert_eq!(state.apkid.free_ids().last(), Some(&1));
    // a second PubAck for the same identifier is a protocol error
    assert_eq!(
        state.handle_incoming_packet(Packet::PubAck(ack(1, 0))).unwrap_err(),
        HandlerError::ProtocolError
    );
}

#[test]
fn qos2_publish_released_by_pubcomp() {
    let mut state = State::new(10);
    let out = submit(&mut state, QoS::ExactlyOnce, "a", "b").unwrap();
    assert_eq!(pkid_of(&out), Some(1));
    let r = state.handle_incoming_packet(Packet::PubRec(ack(1, 0))).unwrap();
    assert_eq!(r.response, Some(Packet::PubRel(ack(1, 0))));
    assert!(state.outgoing_pub.is_empty());
    assert_eq!(state.outgoing_rel.iter().copied().collect::<Vec<u16>>(), vec![1]);
    assert!(!state.apkid.free_ids().contains(&1));
    let r = state.handle_incoming_packet(Packet::PubComp(ack(1, 0))).unwrap();
    assert!(r.response.is_none());
    assert!(state.outgoing_rel.is_empty());
    assert!(state.apkid.free_ids().contains(&1));
}

#[test]
fn qos2_failed_pubrec_releases_at_once() {
    let mut state = State::new(10);
    submit(&mut state, QoS::ExactlyOnce, "a", "b").unwrap();
    let r = state.handle_incoming_packet(Packet::PubRec(ack(1, 0x80))).unwrap();
    assert!(r.response.is_none());
    assert!(state.outgoing_rel.is_empty());
    assert!(state.apkid.free_ids().contains(&1));
}

#[test]
fn incoming_qos2_with_duplicate() {
    let mut state = State::new(10);
    let r = state.handle_incoming_packet(incoming_publish(QoS::ExactlyOnce, false, Some(42))).unwrap();
    assert!(r.deliver);
    assert_eq!(r.response, Some(Packet::PubRec(ack(42, 0))));
    assert_eq!(state.incoming_pub.iter().copied().collect::<Vec<u16>>(), vec![42]);
    let r = state.handle_incoming_packet(incoming_publish(QoS::ExactlyOnce, true, Some(42))).unwrap();
    assert!(!r.deliver);
    assert_eq!(r.response, Some(Packet::PubRec(ack(42, 0))));
    assert_eq!(state.incoming_pub.iter().copied().collect::<Vec<u16>>(), vec![42]);
    let r = state.handle_incoming_packet(Packet::PubRel(ack(42, 0))).unwrap();
    assert_eq!(r.response, Some(Packet::PubComp(ack(42, 0))));
    assert!(state.incoming_pub.is_empty());
    let r = state.handle_incoming_packet(Packet::PubRel(ack(42, 0))).unwrap();
    assert_eq!(r.response, Some(Packet::PubComp(ack(42, 0x92))));
}

#[test]
fn incoming_qos1_is_acked() {
    let mut state = State::new(10);
    let r = state.handle_incoming_packet(incoming_publish(QoS::AtLeastOnce, false, Some(5))).unwrap();
    assert!(r.deliver);
    assert_eq!(r.response, Some(Packet::PubAck(ack(5, 0))));
    assert_eq!(
        state.handle_incoming_packet(incoming_publish(QoS::AtLeastOnce, false, None)).unwrap_err(),
        HandlerError::ProtocolError
    );
}

#[test]
fn keepalive_ping_and_timeout() {
    let mut state = State::new(10);
    assert_eq!(state.handle_keepalive(29_999, 30).unwrap(), None);
    assert_eq!(state.handle_keepalive(30_000, 30).unwrap(), Some(Packet::PingReq));
    assert!(state.await_ping_resp);
    state.handle_incoming_packet(Packet::PingResp).unwrap();
    assert!(!state.await_ping_resp);
    assert_eq!(state.handle_keepalive(30_000, 30).unwrap(), Some(Packet::PingReq));
    assert_eq!(state.handle_keepalive(30_000, 30).unwrap_err(), HandlerError::KeepAliveTimeout);
    assert_eq!(state.handle_keepalive(1_000_000, 0).unwrap(), None);
    assert_eq!(keepalive_wait_ms(10_000, 30), 15_000);
    assert_eq!(keepalive_wait_ms(31_000, 30), 0);
}

#[test]
fn unexpected_pingresp_is_protocol_error() {
    let mut state = State::new(10);
    assert_eq!(state.handle_incoming_packet(Packet::PingResp).unwrap_err(), HandlerError::ProtocolError);
}

#[test]
fn receive_maximum_bounds_in_flight() {
    let mut state = State::new(2);
    assert_eq!(pkid_of(&submit(&mut state, QoS::AtLeastOnce, "t", "1").unwrap()), Some(1));
    assert_eq!(pkid_of(&submit(&mut state, QoS::AtLeastOnce, "t", "2").unwrap()), Some(2));
    assert_eq!(submit(&mut state, QoS::AtLeastOnce, "t", "3").unwrap_err(), HandlerError::PacketIdsExhausted);
    state.handle_incoming_packet(Packet::PubAck(ack(1, 0))).unwrap();
    assert_eq!(pkid_of(&submit(&mut state, QoS::AtLeastOnce, "t", "3").unwrap()), Some(1));
}

#[test]
fn qos1_order_is_kept() {
    let mut state = State::new(10);
    let mut sent = Vec::new();
    for payload in ["first", "second", "third", "fourth"] {
        sent.push(submit(&mut state, QoS::AtLeastOnce, "t", payload).unwrap());
    }
    let payloads: Vec<Vec<u8>> = sent
        .iter()
        .map(|p| match p {
            Packet::Publish(pb) => pb.payload.clone(),
            _ => vec![],
        })
        .collect();
    assert_eq!(payloads, vec![b"first".to_vec(), b"second".to_vec(), b"third".to_vec(), b"fourth".to_vec()]);
}

#[test]
fn pool_leases_and_releases_in_fifo_order() {
    let mut pool = AvailablePacketIds::new(3);
    assert_eq!(pool.try_acquire(), Some(1));
    assert_eq!(pool.try_acquire(), Some(2));
    assert_eq!(pool.free_ids(), vec![3]);
    pool.release(2);
    pool.release(1);
    assert_eq!(pool.free_ids(), vec![3, 2, 1]);
    assert_eq!(pool.try_acquire(), Some(3));
    assert_eq!(pool.try_acquire(), Some(2));
    assert_eq!(pool.try_acquire(), Some(1));
    assert_eq!(pool.try_acquire(), None);
    assert!(!pool.has_free());
    assert_eq!(pool.receive_maximum(), 3);
}

#[test]
fn subscribe_and_unsubscribe_round() {
    let mut state = State::new(10);
    let sub = subscribe_packet(vec![b"a/+".to_vec(), b"b/#".to_vec()], vec![1, 2]).unwrap();
    let out = state.handle_outgoing_packet(sub).unwrap();
    let id = match &out {
        Packet::Subscribe(s) => s.packet_identifier,
        _ => panic!("expected a subscribe"),
    };
    assert_eq!(id, 1);
    let bad = Packet::SubAck(SubAck { packet_identifier: 1, properties: vec![], reason_codes: vec![0] });
    assert_eq!(state.handle_incoming_packet(bad).unwrap_err(), HandlerError::ProtocolError);
    let good = Packet::SubAck(SubAck { packet_identifier: 1, properties: vec![], reason_codes: vec![1, 2] });
    assert!(state.handle_incoming_packet(good).unwrap().deliver);
    assert!(state.outgoing_sub.is_empty());
    let unsub = unsubscribe_packet(vec![b"a/+".to_vec()]).unwrap();
    state.handle_outgoing_packet(unsub).unwrap();
    assert!(state.outgoing_unsub.contains_key(&2));
    let ack = Packet::UnsubAck(SubAck { packet_identifier: 2, properties: vec![], reason_codes: vec![0] });
    assert!(state.handle_incoming_packet(ack).unwrap().deliver);
    assert!(state.outgoing_unsub.is_empty());
}

#[test]
fn server_disconnect_ends_session() {
    let mut state = State::new(10);
    let d = Packet::Disconnect(ReasonPacket { reason_code: 0x8E, properties: vec![] });
    assert_eq!(state.handle_incoming_packet(d).unwrap_err(), HandlerError::ServerDisconnect(0x8E));
}

#[test]
fn client_rejects_bad_topics() {
    assert_eq!(publish_packet(QoS::AtMostOnce, false, vec![], vec![]).unwrap_err(), ClientError::EmptyTopic);
    assert_eq!(publish_packet(QoS::AtMostOnce, false, b"a/+".to_vec(), vec![]).unwrap_err(), ClientError::WildcardInTopic);
    assert_eq!(publish_packet(QoS::AtMostOnce, false, b"a/#".to_vec(), vec![]).unwrap_err(), ClientError::WildcardInTopic);
    assert_eq!(publish_packet(QoS::AtMostOnce, false, vec![b'a', 0], vec![]).unwrap_err(), ClientError::NulInTopic);
    assert_eq!(publish_packet(QoS::AtMostOnce, false, vec![0xFF], vec![]).unwrap_err(), ClientError::InvalidUtf8);
    assert_eq!(publish_packet(QoS::AtMostOnce, false, vec![b'a'; 65536], vec![]).unwrap_err(), ClientError::TopicTooLong);
    assert_eq!(subscribe_packet(vec![], vec![]).unwrap_err(), ClientError::NoTopics);
    assert_eq!(unsubscribe_packet(vec![vec![]]).unwrap_err(), ClientError::EmptyTopic);
    assert_eq!(disconnect_packet(0), Packet::Disconnect(ReasonPacket { reason_code: 0, properties: vec![] }));
}

#[test]
fn read_packets_splits_buffer() {
    let mut buf = Vec::new();
    Packet::PubAck(ack(1, 0)).write(&mut buf).unwrap();
    Packet::PingResp.write(&mut buf).unwrap();
    let whole = buf.len();
    buf.extend_from_slice(&[0x30, 10, 0]);
    let (ps, k, e) = read_packets(&buf);
    assert_eq!(ps, vec![Packet::PubAck(ack(1, 0)), Packet::PingResp]);
    assert_eq!(k, whole);
    assert_eq!(e, None);
    assert_eq!(read_packets(&[0x41, 2, 0, 1]), (vec![], 0, Some(DecodeError::MalformedPacket)));
    // the packets before a bad frame are still handed out
    assert_eq!(read_packets(&[0xC0, 0, 0, 0]), (vec![Packet::PingReq], 2, Some(DecodeError::MalformedPacket)));
    assert_eq!(expect_connack(connack(0)), Ok(connack(0)));
    assert_eq!(expect_connack(Packet::PingResp), Err(ConnectionError::UnexpectedPacket));
}

#[test]
fn server_receive_maximum_narrows_window() {
    let mut state = State::new(3);
    let c = Packet::ConnAck(ConnAck { session_present: false, reason_code: 0, properties: vec![0x21, 0, 1] });
    state.handle_incoming_packet(c.clone()).unwrap();
    assert_eq!(state.window, 1);
    assert_eq!(pkid_of(&submit(&mut state, QoS::AtLeastOnce, "t", "1").unwrap()), Some(1));
    assert_eq!(submit(&mut state, QoS::AtLeastOnce, "t", "2").unwrap_err(), HandlerError::PacketIdsExhausted);
    state.handle_incoming_packet(Packet::PubAck(ack(1, 0))).unwrap();
    assert_eq!(pkid_of(&submit(&mut state, QoS::AtLeastOnce, "t", "2").unwrap()), Some(2));
    // a second ConnAck breaks the protocol
    assert_eq!(state.handle_incoming_packet(c).unwrap_err(), HandlerError::ProtocolError);
}

#[test]
fn connack_with_zero_receive_maximum_is_refused() {
    let mut state = State::new(3);
    let c = Packet::ConnAck(ConnAck { session_present: false, reason_code: 0, properties: vec![0x21, 0, 0] });
    assert_eq!(state.handle_incoming_packet(c).unwrap_err(), HandlerError::ProtocolError);
}

#[test]
fn publish_limits() {
    assert_eq!(check_publish_limits(QoS::ExactlyOnce, 1, 1, QoS::AtLeastOnce, 0), Err(ClientError::QosNotSupported));
    assert_eq!(check_publish_limits(QoS::AtLeastOnce, 1, 1, QoS::AtLeastOnce, 0), Ok(()));
    // 1 + 1 + (2 + 5 + 2 + 1 + 5) = 17 bytes on the wire
    assert_eq!(check_publish_limits(QoS::AtLeastOnce, 5, 5, QoS::ExactlyOnce, 17), Ok(()));
    assert_eq!(check_publish_limits(QoS::AtLeastOnce, 5, 5, QoS::ExactlyOnce, 16), Err(ClientError::PacketTooLarge));
    assert_eq!(check_publish_limits(QoS::AtMostOnce, 0, 268435451, QoS::ExactlyOnce, 0), Err(ClientError::PacketTooLarge));
}

#[test]
fn in_flight_publish_is_stored_whole() {
    let mut state = State::new(10);
    let out = submit(&mut state, QoS::AtLeastOnce, "t", "x").unwrap();
    match out {
        Packet::Publish(pb) => assert_eq!(state.outgoing_pub.get(&1), Some(&pb)),
        _ => panic!("expected a publish"),
    }
    let sub = subscribe_packet(vec![b"a".to_vec()], vec![1]).unwrap();
    match state.handle_outgoing_packet(sub).unwrap() {
        Packet::Subscribe(s) => assert_eq!(state.outgoing_sub.get(&2), Some(&s)),
        _ => panic!("expected a subscribe"),
    }
}

#[test]
fn protocol_error_sends_disconnect() {
    assert_eq!(
        HandlerError::ProtocolError.disconnect_packet(),
        Some(Packet::Disconnect(ReasonPacket { reason_code: 0x82, properties: vec![] }))
    );
    assert_eq!(HandlerError::KeepAliveTimeout.disconnect_packet(), None);
    assert!(ends_session(&disconnect_packet(0)));
    assert!(!ends_session(&Packet::PingReq));
}
