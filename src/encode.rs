//! Writing packets: the wire form of each packet as a specification, and
//! the writer that produces it, into a `Vec` or the network's `BytesMut`.
use crate::packets::{
    Ack, ConnAck, ConnAckView, Connect, ConnectView, Packet, PacketView, Publish, PublishView, QoS,
    ReasonPacket, ReasonPacketView, SubAck, SubAckView, Subscribe, SubscribeView, TopicFilter,
    TopicFilterView, Unsubscribe, UnsubscribeView,
    opt_view, EncodeError,
};
use crate::vbi::{fits_variable_integer, vbi_encode, write_variable_integer, VBI_MAX};
use bytes::BytesMut;
use vstd::prelude::*;

verus! {

pub open spec fn be16(x: u16) -> Seq<u8> {
    seq![(x / 256) as u8, (x % 256) as u8]
}

/// A length-prefixed string or binary field.
pub open spec fn str_enc(t: Seq<u8>) -> Seq<u8> {
    be16(t.len() as u16) + t
}

/// A property block: its length, then its bytes.
pub open spec fn props_enc(p: Seq<u8>) -> Seq<u8> {
    vbi_encode(p.len()) + p
}

pub open spec fn opt_str_enc(o: Option<Seq<u8>>) -> Seq<u8> {
    match o {
        Some(t) => str_enc(t),
        None => Seq::empty(),
    }
}

pub open spec fn filters_enc(t: Seq<TopicFilterView>) -> Seq<u8>
    decreases t.len(),
{
    if t.len() == 0 {
        Seq::empty()
    } else {
        filters_enc(t.drop_last()) + str_enc(t.last().topic) + seq![t.last().options]
    }
}

pub open spec fn topics_enc(t: Seq<Seq<u8>>) -> Seq<u8>
    decreases t.len(),
{
    if t.len() == 0 {
        Seq::empty()
    } else {
        topics_enc(t.drop_last()) + str_enc(t.last())
    }
}

pub open spec fn bit(b: bool, v: u8) -> u8 {
    if b {
        v
    } else {
        0
    }
}

pub open spec fn connect_flags(c: ConnectView) -> u8 {
    (bit(c.username is Some, 0x80) + bit(c.password is Some, 0x40) + bit(c.clean_start, 2)) as u8
}

/// The first byte of the fixed header: packet type and flags.
pub open spec fn header_byte(p: PacketView) -> u8 {
    match p {
        PacketView::Connect(_) => 0x10,
        PacketView::ConnAck(_) => 0x20,
        PacketView::Publish(pb) => (0x30 + bit(pb.dup, 8) + pb.qos.spec_to_bits() * 2 + bit(
            pb.retain,
            1,
        )) as u8,
        PacketView::PubAck(_) => 0x40,
        PacketView::PubRec(_) => 0x50,
        PacketView::PubRel(_) => 0x62,
        PacketView::PubComp(_) => 0x70,
        PacketView::Subscribe(_) => 0x82,
        PacketView::SubAck(_) => 0x90,
        PacketView::Unsubscribe(_) => 0xA2,
        PacketView::UnsubAck(_) => 0xB0,
        PacketView::PingReq => 0xC0,
        PacketView::PingResp => 0xD0,
        PacketView::Disconnect(_) => 0xE0,
        PacketView::Auth(_) => 0xF0,
    }
}

pub open spec fn ack_enc(a: Ack) -> Seq<u8> {
    be16(a.packet_identifier) + seq![a.reason_code]
}

/// The bytes after the remaining length: variable header and payload.
pub open spec fn body_enc(p: PacketView) -> Seq<u8> {
    match p {
        PacketView::Connect(c) => str_enc(seq![77u8, 81u8, 84u8, 84u8]) + seq![5u8, connect_flags(c)]
            + be16(c.keep_alive) + props_enc(c.properties) + str_enc(c.client_id) + opt_str_enc(
            c.username,
        ) + opt_str_enc(c.password),
        PacketView::ConnAck(c) => seq![bit(c.session_present, 1), c.reason_code] + props_enc(
            c.properties,
        ),
        PacketView::Publish(pb) => str_enc(pb.topic) + match pb.packet_identifier {
            Some(id) => be16(id),
            None => Seq::empty(),
        } + props_enc(pb.properties) + pb.payload,
        PacketView::PubAck(a) => ack_enc(a),
        PacketView::PubRec(a) => ack_enc(a),
        PacketView::PubRel(a) => ack_enc(a),
        PacketView::PubComp(a) => ack_enc(a),
        PacketView::Subscribe(x) => be16(x.packet_identifier) + props_enc(x.properties)
            + filters_enc(x.topics),
        PacketView::SubAck(x) => be16(x.packet_identifier) + props_enc(x.properties)
            + x.reason_codes,
        PacketView::Unsubscribe(x) => be16(x.packet_identifier) + props_enc(x.properties)
            + topics_enc(x.topics),
        PacketView::UnsubAck(x) => be16(x.packet_identifier) + props_enc(x.properties)
            + x.reason_codes,
        PacketView::PingReq => Seq::empty(),
        PacketView::PingResp => Seq::empty(),
        PacketView::Disconnect(d) => seq![d.reason_code] + props_enc(d.properties),
        PacketView::Auth(d) => seq![d.reason_code] + props_enc(d.properties),
    }
}

pub open spec fn str_ok(t: Seq<u8>) -> bool {
    t.len() <= 65535
}

pub open spec fn opt_str_ok(o: Option<Seq<u8>>) -> bool {
    match o {
        Some(t) => str_ok(t),
        None => true,
    }
}

pub open spec fn props_ok(p: Seq<u8>) -> bool {
    p.len() <= VBI_MAX
}

/// Whether each field fits its length prefix, and a publish carries a
/// packet identifier exactly when its QoS is above 0.
pub open spec fn fields_ok(p: PacketView) -> bool {
    match p {
        PacketView::Connect(c) => props_ok(c.properties) && str_ok(c.client_id) && opt_str_ok(
            c.username,
        ) && opt_str_ok(c.password),
        PacketView::ConnAck(c) => props_ok(c.properties),
        PacketView::Publish(pb) => str_ok(pb.topic) && props_ok(pb.properties) && (pb.qos
            == QoS::AtMostOnce) == (pb.packet_identifier is None),
        PacketView::Subscribe(x) => props_ok(x.properties) && forall|i: int|
            0 <= i < x.topics.len() ==> str_ok(#[trigger] x.topics[i].topic),
        PacketView::SubAck(x) => props_ok(x.properties),
        PacketView::Unsubscribe(x) => props_ok(x.properties) && forall|i: int|
            0 <= i < x.topics.len() ==> str_ok(#[trigger] x.topics[i]),
        PacketView::UnsubAck(x) => props_ok(x.properties),
        PacketView::Disconnect(d) => props_ok(d.properties),
        PacketView::Auth(d) => props_ok(d.properties),
        _ => true,
    }
}

/// Whether the packet can be written.
pub open spec fn encodable(p: PacketView) -> bool {
    fields_ok(p) && body_enc(p).len() <= VBI_MAX
}

/// The packet on the wire: fixed header, remaining length, body.
pub open spec fn packet_encode(p: PacketView) -> Seq<u8> {
    seq![header_byte(p)] + vbi_encode(body_enc(p).len()) + body_enc(p)
}

/// Appends `src` to `buf`.
fn push_all(buf: &mut Vec<u8>, src: &[u8])
    ensures
        final(buf)@ == old(buf)@ + src@,
{
    let mut i: usize = 0;
    while i < src.len()
        invariant
            i <= src@.len(),
            buf@ == old(buf)@ + src@.take(i as int),
        decreases src@.len() - i,
    {
        buf.push(src[i]);
        i = i + 1;
        proof {
            assert(buf@ =~= old(buf)@ + src@.take(i as int));
        }
    }
    proof {
        assert(src@.take(i as int) =~= src@);
    }
}

fn write_u16(x: u16, buf: &mut Vec<u8>)
    ensures
        final(buf)@ == old(buf)@ + be16(x),
{
    buf.push((x / 256) as u8);
    buf.push((x % 256) as u8);
    proof {
        assert(buf@ =~= old(buf)@ + be16(x));
    }
}

fn write_str(t: &Vec<u8>, buf: &mut Vec<u8>)
    requires
        str_ok(t@),
    ensures
        final(buf)@ == old(buf)@ + str_enc(t@),
{
    write_u16(t.len() as u16, buf);
    push_all(buf, t.as_slice());
    proof {
        assert(buf@ =~= old(buf)@ + str_enc(t@));
    }
}

fn write_props(p: &Vec<u8>, buf: &mut Vec<u8>)
    requires
        props_ok(p@),
    ensures
        final(buf)@ == old(buf)@ + props_enc(p@),
{
    write_variable_integer(p.len() as u32, buf);
    push_all(buf, p.as_slice());
    proof {
        assert(buf@ =~= old(buf)@ + props_enc(p@));
    }
}

fn write_ack(a: Ack, buf: &mut Vec<u8>)
    ensures
        final(buf)@ == old(buf)@ + ack_enc(a),
{
    write_u16(a.packet_identifier, buf);
    buf.push(a.reason_code);
    proof {
        assert(buf@ =~= old(buf)@ + ack_enc(a));
    }
}

fn write_filters(topics: &Vec<TopicFilter>, buf: &mut Vec<u8>) -> (ok: bool)
    ensures
        ok == forall|i: int| 0 <= i < topics@.len() ==> str_ok(#[trigger] topics@[i].topic@),
        ok ==> final(buf)@ == old(buf)@ + filters_enc(topics@.map_values(|t: TopicFilter| t@)),
{
    let ghost tv = topics@.map_values(|t: TopicFilter| t@);
    let mut i: usize = 0;
    while i < topics.len()
        invariant
            i <= topics@.len(),
            tv == topics@.map_values(|t: TopicFilter| t@),
            forall|j: int| 0 <= j < i ==> str_ok(#[trigger] topics@[j].topic@),
            buf@ == old(buf)@ + filters_enc(tv.take(i as int)),
        decreases topics@.len() - i,
    {
        if topics[i].topic.len() > 65535 {
            return false;
        }
        write_str(&topics[i].topic, buf);
        buf.push(topics[i].options);
        proof {
            let t1 = tv.take(i + 1);
            assert(t1.drop_last() =~= tv.take(i as int));
            assert(t1.last() == topics@[i as int]@);
            assert(buf@ =~= old(buf)@ + filters_enc(t1));
        }
        i = i + 1;
    }
    proof {
        assert(tv.take(i as int) =~= tv);
    }
    true
}

fn write_topics(topics: &Vec<Vec<u8>>, buf: &mut Vec<u8>) -> (ok: bool)
    ensures
        ok == forall|i: int| 0 <= i < topics@.len() ==> str_ok(#[trigger] topics@[i]@),
        ok ==> final(buf)@ == old(buf)@ + topics_enc(topics@.map_values(|t: Vec<u8>| t@)),
{
    let ghost tv = topics@.map_values(|t: Vec<u8>| t@);
    let mut i: usize = 0;
    while i < topics.len()
        invariant
            i <= topics@.len(),
            tv == topics@.map_values(|t: Vec<u8>| t@),
            forall|j: int| 0 <= j < i ==> str_ok(#[trigger] topics@[j]@),
            buf@ == old(buf)@ + topics_enc(tv.take(i as int)),
        decreases topics@.len() - i,
    {
        if topics[i].len() > 65535 {
            return false;
        }
        write_str(&topics[i], buf);
        proof {
            let t1 = tv.take(i + 1);
            assert(t1.drop_last() =~= tv.take(i as int));
            assert(t1.last() == topics@[i as int]@);
            assert(buf@ =~= old(buf)@ + topics_enc(t1));
        }
        i = i + 1;
    }
    proof {
        assert(tv.take(i as int) =~= tv);
    }
    true
}

fn write_opt_str(o: &Option<Vec<u8>>, buf: &mut Vec<u8>) -> (ok: bool)
    ensures
        ok == opt_str_ok(opt_view(*o)),
        ok ==> final(buf)@ == old(buf)@ + opt_str_enc(opt_view(*o)),
{
    match o {
        Some(t) => {
            if t.len() > 65535 {
                false
            } else {
                write_str(t, buf);
                true
            }
        },
        None => {
            proof {
                assert(buf@ =~= old(buf)@ + opt_str_enc(opt_view(*o)));
            }
            true
        },
    }
}

fn flag(b: bool, v: u8) -> (r: u8)
    ensures
        r == bit(b, v),
{
    if b {
        v
    } else {
        0
    }
}

/// Appends the variable header and payload of `p`; false when a field does
/// not fit its length prefix (what was appended is then of no use).
#[verifier::spinoff_prover]
#[verifier::rlimit(60)]
fn write_body(p: &Packet, buf: &mut Vec<u8>) -> (ok: bool)
    ensures
        ok == fields_ok(p@),
        ok ==> final(buf)@ == old(buf)@ + body_enc(p@),
{
    match p {
        Packet::Connect(c) => {
            if c.properties.len() > 268435455 || c.client_id.len() > 65535 {
                return false;
            }
            write_u16(4, buf);
            buf.push(77);
            buf.push(81);
            buf.push(84);
            buf.push(84);
            buf.push(5);
            let f: u8 = flag(c.username.is_some(), 0x80) + flag(c.password.is_some(), 0x40) + flag(
                c.clean_start,
                2,
            );
            buf.push(f);
            write_u16(c.keep_alive, buf);
            write_props(&c.properties, buf);
            write_str(&c.client_id, buf);
            if !write_opt_str(&c.username, buf) {
                return false;
            }
            if !write_opt_str(&c.password, buf) {
                return false;
            }
            proof {
                assert(str_enc(seq![77u8, 81u8, 84u8, 84u8]) =~= be16(4) + seq![77u8, 81u8, 84u8, 84u8]);
                assert(buf@ =~= old(buf)@ + body_enc(p@));
            }
            true
        },
        Packet::ConnAck(c) => {
            if c.properties.len() > 268435455 {
                return false;
            }
            buf.push(flag(c.session_present, 1));
            buf.push(c.reason_code);
            write_props(&c.properties, buf);
            proof {
                assert(buf@ =~= old(buf)@ + body_enc(p@));
            }
            true
        },
        Packet::Publish(pb) => {
            if pb.topic.len() > 65535 || pb.properties.len() > 268435455 {
                return false;
            }
            let q0 = match pb.qos {
                QoS::AtMostOnce => true,
                _ => false,
            };
            if q0 != pb.packet_identifier.is_none() {
                return false;
            }
            write_str(&pb.topic, buf);
            if let Some(id) = pb.packet_identifier {
                write_u16(id, buf);
            }
            write_props(&pb.properties, buf);
            push_all(buf, pb.payload.as_slice());
            proof {
                assert(buf@ =~= old(buf)@ + body_enc(p@));
            }
            true
        },
        Packet::PubAck(a) => {
            write_ack(*a, buf);
            true
        },
        Packet::PubRec(a) => {
            write_ack(*a, buf);
            true
        },
        Packet::PubRel(a) => {
            write_ack(*a, buf);
            true
        },
        Packet::PubComp(a) => {
            write_ack(*a, buf);
            true
        },
        Packet::Subscribe(x) => {
            if x.properties.len() > 268435455 {
                return false;
            }
            write_u16(x.packet_identifier, buf);
            write_props(&x.properties, buf);
            let ok = write_filters(&x.topics, buf);
            proof {
                let tv = x.topics@.map_values(|t: TopicFilter| t@);
                assert((forall|i: int| 0 <= i < tv.len() ==> str_ok(#[trigger] tv[i].topic))
                    == (forall|i: int| 0 <= i < x.topics@.len() ==> str_ok(#[trigger] x.topics@[i].topic@))) by {
                    assert forall|i: int| 0 <= i < tv.len() implies tv[i].topic == #[trigger] x.topics@[i].topic@ by {}
                }
                if ok {
                    assert(buf@ =~= old(buf)@ + body_enc(p@));
                }
            }
            ok
        },
        Packet::SubAck(x) => {
            if x.properties.len() > 268435455 {
                return false;
            }
            write_u16(x.packet_identifier, buf);
            write_props(&x.properties, buf);
            push_all(buf, x.reason_codes.as_slice());
            proof {
                assert(buf@ =~= old(buf)@ + body_enc(p@));
            }
            true
        },
        Packet::Unsubscribe(x) => {
            if x.properties.len() > 268435455 {
                return false;
            }
            write_u16(x.packet_identifier, buf);
            write_props(&x.properties, buf);
            let ok = write_topics(&x.topics, buf);
            proof {
                let tv = x.topics@.map_values(|t: Vec<u8>| t@);
                assert((forall|i: int| 0 <= i < tv.len() ==> str_ok(#[trigger] tv[i]))
                    == (forall|i: int| 0 <= i < x.topics@.len() ==> str_ok(#[trigger] x.topics@[i]@))) by {
                    assert forall|i: int| 0 <= i < tv.len() implies tv[i] == #[trigger] x.topics@[i]@ by {}
                }
                if ok {
                    assert(buf@ =~= old(buf)@ + body_enc(p@));
                }
            }
            ok
        },
        Packet::UnsubAck(x) => {
            if x.properties.len() > 268435455 {
                return false;
            }
            write_u16(x.packet_identifier, buf);
            write_props(&x.properties, buf);
            push_all(buf, x.reason_codes.as_slice());
            proof {
                assert(buf@ =~= old(buf)@ + body_enc(p@));
            }
            true
        },
        Packet::PingReq => {
            proof {
                assert(buf@ =~= old(buf)@ + body_enc(p@));
            }
            true
        },
        Packet::PingResp => {
            proof {
                assert(buf@ =~= old(buf)@ + body_enc(p@));
            }
            true
        },
        Packet::Disconnect(d) => {
            if d.properties.len() > 268435455 {
                return false;
            }
            buf.push(d.reason_code);
            write_props(&d.properties, buf);
            proof {
                assert(buf@ =~= old(buf)@ + body_enc(p@));
            }
            true
        },
        Packet::Auth(d) => {
            if d.properties.len() > 268435455 {
                return false;
            }
            buf.push(d.reason_code);
            write_props(&d.properties, buf);
            proof {
                assert(buf@ =~= old(buf)@ + body_enc(p@));
            }
            true
        },
    }
}

fn header(p: &Packet) -> (r: u8)
    ensures
        r == header_byte(p@),
{
    match p {
        Packet::Connect(_) => 0x10,
        Packet::ConnAck(_) => 0x20,
        Packet::Publish(pb) => 0x30 + flag(pb.dup, 8) + pb.qos.to_bits() * 2 + flag(pb.retain, 1),
        Packet::PubAck(_) => 0x40,
        Packet::PubRec(_) => 0x50,
        Packet::PubRel(_) => 0x62,
        Packet::PubComp(_) => 0x70,
        Packet::Subscribe(_) => 0x82,
        Packet::SubAck(_) => 0x90,
        Packet::Unsubscribe(_) => 0xA2,
        Packet::UnsubAck(_) => 0xB0,
        Packet::PingReq => 0xC0,
        Packet::PingResp => 0xD0,
        Packet::Disconnect(_) => 0xE0,
        Packet::Auth(_) => 0xF0,
    }
}

impl Packet {
    /// Appends the packet's wire form to `buf`, or leaves `buf` as it was
    /// when the packet cannot be written.
    pub fn write(&self, buf: &mut Vec<u8>) -> (r: Result<(), EncodeError>)
        ensures
            r is Ok <==> encodable(self@),
            r is Ok ==> final(buf)@ == old(buf)@ + packet_encode(self@),
            r is Err ==> final(buf)@ == old(buf)@ && r == Err::<(), EncodeError>(
                EncodeError::InvalidPacket,
            ),
    {
        let mut body: Vec<u8> = Vec::new();
        if !write_body(self, &mut body) {
            return Err(EncodeError::InvalidPacket);
        }
        proof {
            assert(body@ =~= body_enc(self@));
        }
        if !fits_variable_integer(body.len()) {
            return Err(EncodeError::InvalidPacket);
        }
        buf.push(header(self));
        write_variable_integer(body.len() as u32, buf);
        push_all(buf, body.as_slice());
        proof {
            assert(buf@ =~= old(buf)@ + packet_encode(self@));
        }
        Ok(())
    }
}

#[verifier::external_type_specification]
#[verifier::external_body]
pub struct ExBytesMut(BytesMut);

/// The bytes a `BytesMut` holds.
pub uninterp spec fn bytes_mut_contents(b: BytesMut) -> Seq<u8>;

/// Relies on `BytesMut::extend_from_slice`: it appends a copy of `src`,
/// and panics only when the new length overflows `usize`.
#[verifier::external_body]
fn extend_bytes_mut(b: &mut BytesMut, src: &[u8])
    requires
        bytes_mut_contents(*old(b)).len() + src@.len() <= usize::MAX,
    ensures
        bytes_mut_contents(*final(b)) == bytes_mut_contents(*old(b)) + src@,
{
    b.extend_from_slice(src)
}

/// Relies on `BytesMut::len`: the number of bytes the buffer holds.
#[verifier::external_body]
fn bytes_mut_len(b: &BytesMut) -> (r: usize)
    ensures
        r == bytes_mut_contents(*b).len(),
{
    b.len()
}

/// The longest wire form of a packet: a header byte, four length bytes and
/// the largest body.
pub const MAX_PACKET_LEN: usize = 268435460;

impl Packet {
    /// Appends the packet's wire form to the network's write buffer, or
    /// leaves the buffer as it was when the packet cannot be written or the
    /// buffer is too close to the largest length a `usize` can count.
    pub fn write_to_buffer(&self, buf: &mut BytesMut) -> (r: Result<(), EncodeError>)
        ensures
            r is Ok <==> encodable(self@) && bytes_mut_contents(*old(buf)).len() + MAX_PACKET_LEN
                <= usize::MAX,
            r is Err ==> r == Err::<(), EncodeError>(
                if encodable(self@) {
                    EncodeError::BufferFull
                } else {
                    EncodeError::InvalidPacket
                },
            ),
            r is Ok ==> bytes_mut_contents(*final(buf)) == bytes_mut_contents(*old(buf))
                + packet_encode(self@),
            r is Err ==> bytes_mut_contents(*final(buf)) == bytes_mut_contents(*old(buf)),
    {
        let mut bytes: Vec<u8> = Vec::new();
        if bytes_mut_len(buf) > usize::MAX - MAX_PACKET_LEN {
            return if self.write(&mut bytes).is_ok() {
                Err(EncodeError::BufferFull)
            } else {
                Err(EncodeError::InvalidPacket)
            };
        }
        match self.write(&mut bytes) {
            Ok(()) => {
                proof {
                    assert(bytes@ =~= packet_encode(self@));
                    crate::vbi::lemma_vbi_len(body_enc(self@).len());
                }
                extend_bytes_mut(buf, bytes.as_slice());
                Ok(())
            },
            Err(_) => Err(EncodeError::InvalidPacket),
        }
    }
}

} // verus!
