use mqrstt::connect_options::ConnectOptions;
use mqrstt::packets::{
    Ack, ConnAck, DecodeError, EncodeError, Packet, Publish, QoS, ReasonPacket, SubAck, Subscribe, TopicFilter,
    Unsubscribe,
};
use mqrstt::utf8::check_utf8;
use mqrstt::vbi::{read_variable_integer, variable_integer_len, write_variable_integer, VbiError};

fn encode(p: &Packet) -> Vec<u8> {
    let mut buf = Vec::new();
    p.write(&mut buf).unwrap();
    buf
}

fn round_trip(p: Packet) {
    let bytes = encode(&p);
    let (q, k) = Packet::read(&bytes).unwrap();
    assert_eq!(k, bytes.len());
    assert_eq!(q, p);
    assert_eq!(encode(&q), bytes);
}

#[test]
fn vbi_lengths_at_boundaries() {
    let cases: [(u32, usize); 8] = [
        (0, 1),
        (127, 1),
        (128, 2),
        (16383, 2),
        (16384, 3),
        (2097151, 3),
        (2097152, 4),
        (268435455, 4),
    ];
    for (n, len) in cases {
        let mut buf = Vec::new();
        write_variable_integer(n, &mut buf);
        assert_eq!(buf.len(), len);
        assert_eq!(variable_integer_len(n), len);
        assert_eq!(read_variable_integer(&buf), Ok((n, len)));
    }
}

#[test]
fn vbi_exact_bytes() {
    let mut buf = Vec::new();
    write_variable_integer(321, &mut buf);
    assert_eq!(buf, vec![0xC1, 0x02]);
    let mut buf = Vec::new();
    write_variable_integer(268435455, &mut buf);
    assert_eq!(buf, vec![0xFF, 0xFF, 0xFF, 0x7F]);
}

#[test]
fn vbi_rejects_fifth_byte_and_trailing_zero() {
    assert_eq!(read_variable_integer(&[0xFF, 0xFF, 0xFF, 0xFF, 0x01]), Err(VbiError::Malformed));
    assert_eq!(read_variable_integer(&[0x80, 0x00]), Err(VbiError::Malformed));
    assert_eq!(read_variable_integer(&[0x80]), Err(VbiError::NeedMore));
    assert_eq!(read_variable_integer(&[]), Err(VbiError::NeedMore));
}

#[test]
fn publish_qos0_wire_bytes() {
    let p = Packet::Publish(Publish {
        dup: false,
        qos: QoS::AtMostOnce,
        retain: false,
        topic: b"hello".to_vec(),
        packet_identifier: None,
        properties: vec![],
        payload: b"world".to_vec(),
    });
    let bytes = encode(&p);
    let mut expected = vec![0x30, 13, 0, 5];
    expected.extend_from_slice(b"hello");
    expected.push(0);
    expected.extend_from_slice(b"world");
    assert_eq!(bytes, expected);
}

#[test]
fn round_trips() {
    round_trip(Packet::Publish(Publish {
        dup: true,
        qos: QoS::ExactlyOnce,
        retain: true,
        topic: b"a/b".to_vec(),
        packet_identifier: Some(42),
        properties: vec![0x01, 0x01],
        payload: b"payload".to_vec(),
    }));
    round_trip(Packet::PubAck(Ack { packet_identifier: 1, reason_code: 0 }));
    round_trip(Packet::PubRec(Ack { packet_identifier: 300, reason_code: 0x80 }));
    round_trip(Packet::PubRel(Ack { packet_identifier: 65535, reason_code: 0 }));
    round_trip(Packet::PubComp(Ack { packet_identifier: 7, reason_code: 0x92 }));
    round_trip(Packet::ConnAck(ConnAck { session_present: true, reason_code: 0, properties: vec![0x21, 0, 10] }));
    round_trip(Packet::SubAck(SubAck { packet_identifier: 3, properties: vec![], reason_codes: vec![0, 1, 0x80] }));
    round_trip(Packet::UnsubAck(SubAck { packet_identifier: 4, properties: vec![], reason_codes: vec![0] }));
    round_trip(Packet::PingReq);
    round_trip(Packet::PingResp);
    round_trip(Packet::Disconnect(ReasonPacket { reason_code: 0x82, properties: vec![] }));
    round_trip(Packet::Auth(ReasonPacket { reason_code: 0x18, properties: vec![] }));
}

#[test]
fn read_needs_whole_packet() {
    let bytes = encode(&Packet::PubAck(Ack { packet_identifier: 9, reason_code: 0 }));
    for cut in 0..bytes.len() {
        assert_eq!(Packet::read(&bytes[..cut]), Err(DecodeError::NeedMore));
    }
    let mut two = bytes.clone();
    two.extend_from_slice(&bytes);
    assert_eq!(Packet::read(&two).unwrap().1, bytes.len());
}

#[test]
fn read_rejects_bad_flags_and_nul() {
    assert_eq!(Packet::read(&[0x41, 2, 0, 1]), Err(DecodeError::MalformedPacket));
    assert_eq!(Packet::read(&[0x60, 2, 0, 1]), Err(DecodeError::MalformedPacket));
    assert_eq!(Packet::read(&[0x36, 4, 0, 1, b'a', 0]), Err(DecodeError::MalformedPacket));
    assert_eq!(Packet::read(&[0x30, 4, 0, 1, 0, 0]), Err(DecodeError::MalformedPacket));
}

#[test]
fn short_acks_default_reason() {
    assert_eq!(
        Packet::read(&[0x40, 2, 0, 5]),
        Ok((Packet::PubAck(Ack { packet_identifier: 5, reason_code: 0 }), 4))
    );
    assert_eq!(
        Packet::read(&[0xE0, 0]),
        Ok((Packet::Disconnect(ReasonPacket { reason_code: 0, properties: vec![] }), 2))
    );
}

#[test]
fn write_rejects_publish_id_mismatch() {
    let p = Packet::Publish(Publish {
        dup: false,
        qos: QoS::AtLeastOnce,
        retain: false,
        topic: b"t".to_vec(),
        packet_identifier: None,
        properties: vec![],
        payload: vec![],
    });
    let mut buf = vec![1, 2];
    assert_eq!(p.write(&mut buf), Err(EncodeError::InvalidPacket));
    assert_eq!(buf, vec![1, 2]);
}

#[test]
fn write_to_buffer_appends_wire_form() {
    let mut buf = bytes::BytesMut::new();
    buf.extend_from_slice(&[9]);
    let p = Packet::PubRel(Ack { packet_identifier: 258, reason_code: 0 });
    p.write_to_buffer(&mut buf).unwrap();
    assert_eq!(&buf[..], &[9, 0x62, 3, 1, 2, 0][..]);
}

#[test]
fn read_rejects_ill_formed_utf8_topics() {
    // a surrogate, an overlong form, a stray continuation byte
    for topic in [vec![0xED, 0xA0, 0x80], vec![0xC0, 0x80], vec![0x80]] {
        let mut bytes = vec![0x30, (2 + topic.len() + 1) as u8, 0, topic.len() as u8];
        bytes.extend_from_slice(&topic);
        bytes.push(0);
        assert_eq!(Packet::read(&bytes), Err(DecodeError::MalformedPacket));
    }
    let topic = "caf\u{e9}/\u{1F600}".as_bytes().to_vec();
    round_trip(Packet::Publish(Publish {
        dup: false,
        qos: QoS::AtLeastOnce,
        retain: false,
        topic,
        packet_identifier: Some(1),
        properties: vec![],
        payload: vec![],
    }));
}

#[test]
fn utf8_check_matches_std() {
    let samples: [&[u8]; 8] = [
        b"",
        b"plain",
        "\u{7FF}\u{800}\u{FFFF}\u{10000}\u{10FFFF}".as_bytes(),
        &[0xF4, 0x90, 0x80, 0x80],
        &[0xE0, 0x9F, 0xBF],
        &[0xC2],
        &[0xF5, 0x80, 0x80, 0x80],
        &[0xED, 0x9F, 0xBF],
    ];
    for s in samples {
        assert_eq!(check_utf8(s), std::str::from_utf8(s).is_ok());
    }
}

#[test]
fn round_trips_connect_subscribe_unsubscribe() {
    let mut opt = ConnectOptions::new("broker.emqx.io".to_string(), 1883, b"test123123".to_vec());
    opt.username = Some(b"user".to_vec());
    opt.password = Some(vec![0, 1, 2]);
    opt.receive_maximum = 10;
    opt.session_expiry_interval = 3600;
    let connect = opt.connect_packet();
    match &connect {
        Packet::Connect(c) => {
            assert_eq!(c.properties, vec![0x11, 0, 0, 0x0E, 0x10, 0x21, 0, 10]);
            assert_eq!(c.keep_alive, 60);
            assert!(c.clean_start);
        }
        _ => panic!("expected a connect"),
    }
    round_trip(connect);
    let plain = ConnectOptions::new("h".to_string(), 1883, b"id".to_vec()).connect_packet();
    assert_eq!(
        encode(&plain),
        vec![0x10, 15, 0, 4, b'M', b'Q', b'T', b'T', 5, 2, 0, 60, 0, 0, 2, b'i', b'd']
    );
    round_trip(plain);
    round_trip(Packet::Subscribe(Subscribe {
        packet_identifier: 10,
        properties: vec![],
        topics: vec![
            TopicFilter { topic: b"a/+".to_vec(), options: 1 },
            TopicFilter { topic: b"b/#".to_vec(), options: 2 },
        ],
    }));
    round_trip(Packet::Unsubscribe(Unsubscribe {
        packet_identifier: 11,
        properties: vec![],
        topics: vec![b"a/+".to_vec(), b"c".to_vec()],
    }));
}

#[test]
fn connect_with_will_flag_is_refused() {
    let mut bytes = encode(&ConnectOptions::new("h".to_string(), 1, b"id".to_vec()).connect_packet());
    bytes[9] |= 0x04;
    assert_eq!(Packet::read(&bytes), Err(DecodeError::MalformedPacket));
}

#[test]
fn read_checks_property_blocks() {
    // unknown identifier 0x7F
    assert_eq!(Packet::read(&[0x40, 5, 0, 1, 0, 1, 0x7F]), Err(DecodeError::MalformedPacket));
    // a value cut short
    assert_eq!(Packet::read(&[0xE0, 3, 0, 2, 0x21]), Err(DecodeError::MalformedPacket));
    // Receive Maximum twice
    assert_eq!(
        Packet::read(&[0x20, 9, 0, 0, 6, 0x21, 0, 1, 0x21, 0, 2]),
        Err(DecodeError::ProtocolError)
    );
    // Receive Maximum belongs to Connect and ConnAck, not to Publish
    assert_eq!(
        Packet::read(&[0x30, 7, 0, 1, b't', 3, 0x21, 0, 1]),
        Err(DecodeError::MalformedPacket)
    );
    // User Property twice is allowed
    let user = vec![0x26, 0, 1, b'k', 0, 1, b'v', 0x26, 0, 1, b'k', 0, 1, b'w'];
    round_trip(Packet::Disconnect(ReasonPacket { reason_code: 0, properties: user }));
}
