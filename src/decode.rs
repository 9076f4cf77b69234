//! Reading packets: what the reader accepts, as a specification; the
//! reader that follows it; and the law that reading a written packet gives
//! it back.
use crate::encode::{
    ack_enc, be16, bit, body_enc, connect_flags, encodable, fields_ok, filters_enc, header_byte,
    opt_str_enc, packet_encode, props_enc, props_ok, str_enc, str_ok, topics_enc,
};
use crate::packets::{
    Ack, ConnAck, ConnAckView, Connect, ConnectView, Packet, PacketView, Publish, PublishView, QoS,
    ReasonPacket, ReasonPacketView, SubAck, SubAckView, Subscribe, SubscribeView, TopicFilter,
    TopicFilterView, Unsubscribe, UnsubscribeView,
    opt_view, DecodeError,
};
use crate::properties::{all_allowed, check_allowed, has_repeat, property_ids, repeats, scan_properties};
use crate::utf8::{check_utf8, utf8_ok};
use crate::vbi::{lemma_vbi_round_trip, read_variable_integer, vbi_encode, vbi_parse, VbiError};
use vstd::prelude::*;
use vstd::slice::{slice_subrange, slice_to_vec};

verus! {

pub open spec fn parse_u16(s: Seq<u8>) -> Option<(u16, Seq<u8>)> {
    if s.len() >= 2 {
        Some(((s[0] as nat * 256 + s[1] as nat) as u16, s.skip(2)))
    } else {
        None
    }
}

pub open spec fn no_nul(t: Seq<u8>) -> bool {
    forall|i: int| 0 <= i < t.len() ==> #[trigger] t[i] != 0
}

/// A length-prefixed UTF-8 string, which may not hold a NUL byte, and what
/// follows.
pub open spec fn parse_str(s: Seq<u8>) -> Option<(Seq<u8>, Seq<u8>)> {
    match parse_u16(s) {
        Some((n, r)) => if n <= r.len() && no_nul(r.take(n as int)) && utf8_ok(r.take(n as int)) {
            Some((r.take(n as int), r.skip(n as int)))
        } else {
            None
        },
        None => None,
    }
}

/// Whether a well-formed block repeats a property other than User Property.
pub open spec fn block_repeats(pr: Seq<u8>) -> bool {
    match property_ids(pr) {
        Some(ids) => has_repeat(ids),
        None => false,
    }
}

/// Whether each property of a well-formed block may appear in a packet of
/// type `t`.
pub open spec fn block_allowed(t: u8, pr: Seq<u8>) -> bool {
    match property_ids(pr) {
        Some(ids) => all_allowed(t, ids),
        None => true,
    }
}

/// The property block a packet carries; empty for those without one.
pub open spec fn packet_properties(p: PacketView) -> Seq<u8> {
    match p {
        PacketView::Connect(c) => c.properties,
        PacketView::ConnAck(c) => c.properties,
        PacketView::Publish(pb) => pb.properties,
        PacketView::Subscribe(x) => x.properties,
        PacketView::SubAck(x) => x.properties,
        PacketView::Unsubscribe(x) => x.properties,
        PacketView::UnsubAck(x) => x.properties,
        PacketView::Disconnect(d) => d.properties,
        PacketView::Auth(d) => d.properties,
        _ => Seq::empty(),
    }
}

/// A well-formed property block, and what follows.
pub open spec fn parse_props(s: Seq<u8>) -> Option<(Seq<u8>, Seq<u8>)> {
    match vbi_parse(s) {
        Ok((n, k)) => if k + n <= s.len() && property_ids(s.subrange(k as int, (k + n) as int)) is Some {
            Some((s.subrange(k as int, (k + n) as int), s.skip((k + n) as int)))
        } else {
            None
        },
        Err(_) => None,
    }
}

/// A property block that ends the packet.
pub open spec fn parse_last_props(s: Seq<u8>) -> Option<Seq<u8>> {
    match parse_props(s) {
        Some((pr, r)) => if r.len() == 0 {
            Some(pr)
        } else {
            None
        },
        None => None,
    }
}

/// PubAck, PubRec, PubRel, PubComp: the reason code and properties may be
/// left out.
pub open spec fn parse_ack(b: Seq<u8>) -> Option<Ack> {
    if b.len() < 2 {
        None
    } else {
        let id = (b[0] as nat * 256 + b[1] as nat) as u16;
        if b.len() == 2 {
            Some(Ack { packet_identifier: id, reason_code: 0 })
        } else if b.len() == 3 || (parse_last_props(b.skip(3)) matches Some(pr) && !block_repeats(pr)
            && block_allowed(4, pr)) {
            Some(Ack { packet_identifier: id, reason_code: b[2] })
        } else {
            None
        }
    }
}

pub open spec fn parse_sub_ack(b: Seq<u8>) -> Option<SubAckView> {
    match parse_u16(b) {
        Some((id, r)) => match parse_props(r) {
            Some((pr, codes)) => Some(
                SubAckView { packet_identifier: id, properties: pr, reason_codes: codes },
            ),
            None => None,
        },
        None => None,
    }
}

/// Disconnect and Auth: the reason code and properties may be left out.
pub open spec fn parse_reason(b: Seq<u8>) -> Option<ReasonPacketView> {
    if b.len() == 0 {
        Some(ReasonPacketView { reason_code: 0, properties: Seq::empty() })
    } else if b.len() == 1 {
        Some(ReasonPacketView { reason_code: b[0], properties: Seq::empty() })
    } else {
        match parse_last_props(b.skip(1)) {
            Some(pr) => Some(ReasonPacketView { reason_code: b[0], properties: pr }),
            None => None,
        }
    }
}

pub open spec fn parse_publish(f: u8, b: Seq<u8>) -> Option<PublishView> {
    match (QoS::spec_from_bits((f / 2) % 4), parse_str(b)) {
        (Some(qos), Some((topic, r1))) => {
            let (pkid, r2) = if qos == QoS::AtMostOnce {
                (None::<u16>, Some(r1))
            } else {
                match parse_u16(r1) {
                    Some((id, r)) => (Some(id), Some(r)),
                    None => (None::<u16>, None::<Seq<u8>>),
                }
            };
            match r2 {
                Some(r) => match parse_props(r) {
                    Some((pr, payload)) => Some(
                        PublishView {
                            dup: f / 8 == 1,
                            qos,
                            retain: f % 2 == 1,
                            topic,
                            packet_identifier: pkid,
                            properties: pr,
                            payload,
                        },
                    ),
                    None => None,
                },
                None => None,
            }
        },
        _ => None,
    }
}

/// Topic filters with their options bytes, up to the end of `s`.
pub open spec fn parse_filters(s: Seq<u8>) -> Option<Seq<TopicFilterView>>
    decreases s.len(),
{
    if s.len() == 0 {
        Some(Seq::empty())
    } else {
        match parse_str(s) {
            Some((t, r)) => if 1 <= r.len() < s.len() {
                match parse_filters(r.skip(1)) {
                    Some(fs) => Some(seq![TopicFilterView { topic: t, options: r[0] }] + fs),
                    None => None,
                }
            } else {
                None
            },
            None => None,
        }
    }
}

/// Topic filters up to the end of `s`.
pub open spec fn parse_topics(s: Seq<u8>) -> Option<Seq<Seq<u8>>>
    decreases s.len(),
{
    if s.len() == 0 {
        Some(Seq::empty())
    } else {
        match parse_str(s) {
            Some((t, r)) => if r.len() < s.len() {
                match parse_topics(r) {
                    Some(ts) => Some(seq![t] + ts),
                    None => None,
                }
            } else {
                None
            },
            None => None,
        }
    }
}

pub open spec fn parse_subscribe(b: Seq<u8>) -> Option<SubscribeView> {
    match parse_u16(b) {
        Some((id, r1)) => match parse_props(r1) {
            Some((pr, r2)) => match parse_filters(r2) {
                Some(fs) => Some(SubscribeView { packet_identifier: id, properties: pr, topics: fs }),
                None => None,
            },
            None => None,
        },
        None => None,
    }
}

pub open spec fn parse_unsubscribe(b: Seq<u8>) -> Option<UnsubscribeView> {
    match parse_u16(b) {
        Some((id, r1)) => match parse_props(r1) {
            Some((pr, r2)) => match parse_topics(r2) {
                Some(ts) => Some(UnsubscribeView { packet_identifier: id, properties: pr, topics: ts }),
                None => None,
            },
            None => None,
        },
        None => None,
    }
}

/// Length-prefixed binary data, and what follows.
pub open spec fn parse_bin(s: Seq<u8>) -> Option<(Seq<u8>, Seq<u8>)> {
    match parse_u16(s) {
        Some((n, r)) => if n <= r.len() {
            Some((r.take(n as int), r.skip(n as int)))
        } else {
            None
        },
        None => None,
    }
}

/// The optional username and password of a Connect, as its flags announce
/// them, ending the packet.
pub open spec fn parse_credentials(flags: u8, r3: Seq<u8>) -> Option<(Option<Seq<u8>>, Option<Seq<u8>>)> {
    let user = if flags / 128 == 1 {
        match parse_str(r3) {
            Some((u, r)) => Some((Some(u), r)),
            None => None,
        }
    } else {
        Some((None::<Seq<u8>>, r3))
    };
    match user {
        Some((u, r4)) => {
            let pass = if (flags / 64) % 2 == 1 {
                match parse_bin(r4) {
                    Some((pw, r)) => Some((Some(pw), r)),
                    None => None,
                }
            } else {
                Some((None::<Seq<u8>>, r4))
            };
            match pass {
                Some((pw, r5)) => if r5.len() == 0 {
                    Some((u, pw))
                } else {
                    None
                },
                None => None,
            }
        },
        None => None,
    }
}

/// A Connect of protocol "MQTT" level 5 without a will: the reserved flag
/// bit and the will bits are 0.
pub open spec fn parse_connect(b: Seq<u8>) -> Option<ConnectView> {
    match parse_str(b) {
        Some((name, r1)) => if name == seq![77u8, 81u8, 84u8, 84u8] && r1.len() >= 4 && r1[0] == 5
            && r1[1] % 2 == 0 && (r1[1] / 4) % 16 == 0 {
            match parse_props(r1.skip(4)) {
                Some((pr, r2)) => match parse_str(r2) {
                    Some((cid, r3)) => match parse_credentials(r1[1], r3) {
                        Some((u, pw)) => Some(
                            ConnectView {
                                clean_start: (r1[1] / 2) % 2 == 1,
                                keep_alive: (r1[2] as nat * 256 + r1[3] as nat) as u16,
                                properties: pr,
                                client_id: cid,
                                username: u,
                                password: pw,
                            },
                        ),
                        None => None,
                    },
                    None => None,
                },
                None => None,
            }
        } else {
            None
        },
        None => None,
    }
}

/// Reads the body of a packet whose fixed header starts with `h`. A
/// reserved flag bit out of place is refused.
#[verifier::opaque]
pub open spec fn parse_body(h: u8, b: Seq<u8>) -> Option<PacketView> {
    let t = h / 16;
    let f = h % 16;
    if t == 3 {
        match parse_publish(f, b) {
            Some(pb) => Some(PacketView::Publish(pb)),
            None => None,
        }
    } else if t == 6 {
        if f != 2 {
            None
        } else {
            match parse_ack(b) {
                Some(a) => Some(PacketView::PubRel(a)),
                None => None,
            }
        }
    } else if t == 8 || t == 10 {
        if f != 2 {
            None
        } else if t == 8 {
            match parse_subscribe(b) {
                Some(x) => Some(PacketView::Subscribe(x)),
                None => None,
            }
        } else {
            match parse_unsubscribe(b) {
                Some(x) => Some(PacketView::Unsubscribe(x)),
                None => None,
            }
        }
    } else if f != 0 {
        None
    } else if t == 1 {
        match parse_connect(b) {
            Some(c) => Some(PacketView::Connect(c)),
            None => None,
        }
    } else if t == 2 {
        if b.len() >= 2 && b[0] <= 1 {
            match parse_last_props(b.skip(2)) {
                Some(pr) => Some(
                    PacketView::ConnAck(
                        ConnAckView { session_present: b[0] == 1, reason_code: b[1], properties: pr },
                    ),
                ),
                None => None,
            }
        } else {
            None
        }
    } else if t == 4 || t == 5 || t == 7 {
        match parse_ack(b) {
            Some(a) => Some(
                if t == 4 {
                    PacketView::PubAck(a)
                } else if t == 5 {
                    PacketView::PubRec(a)
                } else {
                    PacketView::PubComp(a)
                },
            ),
            None => None,
        }
    } else if t == 9 || t == 11 {
        match parse_sub_ack(b) {
            Some(x) => Some(
                if t == 9 {
                    PacketView::SubAck(x)
                } else {
                    PacketView::UnsubAck(x)
                },
            ),
            None => None,
        }
    } else if t == 12 || t == 13 {
        if b.len() == 0 {
            Some(
                if t == 12 {
                    PacketView::PingReq
                } else {
                    PacketView::PingResp
                },
            )
        } else {
            None
        }
    } else if t == 14 || t == 15 {
        match parse_reason(b) {
            Some(d) => Some(
                if t == 14 {
                    PacketView::Disconnect(d)
                } else {
                    PacketView::Auth(d)
                },
            ),
            None => None,
        }
    } else {
        None
    }
}

/// Reads the packet at the start of `s`: the packet and the number of bytes
/// it takes.
pub open spec fn parse_packet(s: Seq<u8>) -> Result<(PacketView, nat), DecodeError> {
    if s.len() == 0 {
        Err(DecodeError::NeedMore)
    } else {
        match vbi_parse(s.skip(1)) {
            Err(VbiError::NeedMore) => Err(DecodeError::NeedMore),
            Err(VbiError::Malformed) => Err(DecodeError::MalformedPacket),
            Ok((n, k)) => if s.len() < 1 + k + n {
                Err(DecodeError::NeedMore)
            } else {
                match parse_body(s[0], s.subrange((1 + k) as int, (1 + k + n) as int)) {
                    Some(p) => if !block_allowed(s[0] / 16, packet_properties(p)) {
                        Err(DecodeError::MalformedPacket)
                    } else if block_repeats(packet_properties(p)) {
                        Err(DecodeError::ProtocolError)
                    } else {
                        Ok((p, 1 + k + n))
                    },
                    None => Err(DecodeError::MalformedPacket),
                }
            },
        }
    }
}

fn read_u16<'a>(s: &'a [u8]) -> (r: Option<(u16, &'a [u8])>)
    ensures
        match r {
            Some((x, rest)) => parse_u16(s@) == Some((x, rest@)),
            None => parse_u16(s@) is None,
        },
{
    if s.len() < 2 {
        None
    } else {
        let x: u16 = s[0] as u16 * 256 + s[1] as u16;
        Some((x, slice_subrange(s, 2, s.len())))
    }
}

fn read_str<'a>(s: &'a [u8]) -> (r: Option<(Vec<u8>, &'a [u8])>)
    ensures
        match r {
            Some((t, rest)) => parse_str(s@) == Some((t@, rest@)),
            None => parse_str(s@) is None,
        },
{
    match read_u16(s) {
        Some((len, r)) => {
            let n = len as usize;
            if n > r.len() {
                return None;
            }
            let t = slice_subrange(r, 0, n);
            proof {
                assert(t@ =~= r@.take(n as int));
            }
            let mut i: usize = 0;
            while i < n
                invariant
                    i <= n,
                    n == len,
                    parse_u16(s@) == Some((len, r@)),
                    n <= r@.len(),
                    t@ == r@.take(n as int),
                    t@.len() == n,
                    forall|j: int| 0 <= j < i ==> #[trigger] t@[j] != 0,
                decreases n - i,
            {
                if t[i] == 0 {
                    proof {
                        assert(r@.take(n as int)[i as int] == 0);
                        assert(!no_nul(r@.take(n as int)));
                    }
                    return None;
                }
                i = i + 1;
            }
            if !check_utf8(t) {
                return None;
            }
            Some((slice_to_vec(t), slice_subrange(r, n, r.len())))
        },
        None => None,
    }
}

fn read_props<'a>(s: &'a [u8]) -> (r: Option<(Vec<u8>, &'a [u8])>)
    ensures
        match r {
            Some((pr, rest)) => parse_props(s@) == Some((pr@, rest@)),
            None => parse_props(s@) is None,
        },
{
    match read_variable_integer(s) {
        Ok((n, k)) => {
            let n = n as usize;
            if k > s.len() || n > s.len() - k {
                return None;
            }
            let pr = slice_subrange(s, k, k + n);
            if scan_properties(pr).is_none() {
                return None;
            }
            Some((slice_to_vec(pr), slice_subrange(s, k + n, s.len())))
        },
        Err(_) => None,
    }
}

fn read_last_props(s: &[u8]) -> (r: Option<Vec<u8>>)
    ensures
        match r {
            Some(pr) => parse_last_props(s@) == Some(pr@),
            None => parse_last_props(s@) is None,
        },
{
    match read_props(s) {
        Some((pr, rest)) => if rest.len() == 0 {
            Some(pr)
        } else {
            None
        },
        None => None,
    }
}

fn properties_repeat(pr: &[u8]) -> (r: bool)
    ensures
        r == block_repeats(pr@),
{
    match scan_properties(pr) {
        Some(ids) => repeats(&ids),
        None => false,
    }
}

fn properties_allowed(t: u8, pr: &[u8]) -> (r: bool)
    ensures
        r == block_allowed(t, pr@),
{
    match scan_properties(pr) {
        Some(ids) => check_allowed(t, &ids),
        None => true,
    }
}

fn properties_of(p: &Packet) -> (r: &[u8])
    ensures
        r@ == packet_properties(p@),
{
    match p {
        Packet::Connect(c) => c.properties.as_slice(),
        Packet::ConnAck(c) => c.properties.as_slice(),
        Packet::Publish(pb) => pb.properties.as_slice(),
        Packet::Subscribe(x) => x.properties.as_slice(),
        Packet::SubAck(x) => x.properties.as_slice(),
        Packet::Unsubscribe(x) => x.properties.as_slice(),
        Packet::UnsubAck(x) => x.properties.as_slice(),
        Packet::Disconnect(d) => d.properties.as_slice(),
        Packet::Auth(d) => d.properties.as_slice(),
        _ => {
            let e: &[u8] = &[];
            proof {
                assert(e@ =~= Seq::<u8>::empty());
            }
            e
        },
    }
}

fn read_ack(b: &[u8]) -> (r: Option<Ack>)
    ensures
        r == parse_ack(b@),
{
    if b.len() < 2 {
        return None;
    }
    let id: u16 = b[0] as u16 * 256 + b[1] as u16;
    if b.len() == 2 {
        Some(Ack { packet_identifier: id, reason_code: 0 })
    } else if b.len() == 3 || match read_last_props(slice_subrange(b, 3, b.len())) {
        Some(pr) => !properties_repeat(pr.as_slice()) && properties_allowed(4, pr.as_slice()),
        None => false,
    } {
        Some(Ack { packet_identifier: id, reason_code: b[2] })
    } else {
        None
    }
}

fn read_sub_ack(b: &[u8]) -> (r: Option<SubAck>)
    ensures
        match r {
            Some(x) => parse_sub_ack(b@) == Some(x@),
            None => parse_sub_ack(b@) is None,
        },
{
    match read_u16(b) {
        Some((id, r)) => match read_props(r) {
            Some((pr, codes)) => Some(
                SubAck { packet_identifier: id, properties: pr, reason_codes: slice_to_vec(codes) },
            ),
            None => None,
        },
        None => None,
    }
}

fn read_reason(b: &[u8]) -> (r: Option<ReasonPacket>)
    ensures
        match r {
            Some(x) => parse_reason(b@) == Some(x@),
            None => parse_reason(b@) is None,
        },
{
    if b.len() == 0 {
        let r = ReasonPacket { reason_code: 0, properties: Vec::new() };
        proof {
            assert(r.properties@ =~= Seq::<u8>::empty());
        }
        Some(r)
    } else if b.len() == 1 {
        let r = ReasonPacket { reason_code: b[0], properties: Vec::new() };
        proof {
            assert(r.properties@ =~= Seq::<u8>::empty());
        }
        Some(r)
    } else {
        match read_last_props(slice_subrange(b, 1, b.len())) {
            Some(pr) => Some(ReasonPacket { reason_code: b[0], properties: pr }),
            None => None,
        }
    }
}

fn read_publish(f: u8, b: &[u8]) -> (r: Option<Publish>)
    ensures
        match r {
            Some(x) => parse_publish(f, b@) == Some(x@),
            None => parse_publish(f, b@) is None,
        },
{
    let qos = match QoS::from_bits((f / 2) % 4) {
        Some(q) => q,
        None => return None,
    };
    let (topic, r1) = match read_str(b) {
        Some(x) => x,
        None => return None,
    };
    let (pkid, r2) = match qos {
        QoS::AtMostOnce => (None, r1),
        _ => match read_u16(r1) {
            Some((id, r)) => (Some(id), r),
            None => return None,
        },
    };
    match read_props(r2) {
        Some((pr, payload)) => Some(
            Publish {
                dup: f / 8 == 1,
                qos,
                retain: f % 2 == 1,
                topic,
                packet_identifier: pkid,
                properties: pr,
                payload: slice_to_vec(payload),
            },
        ),
        None => None,
    }
}

fn read_filters(s: &[u8]) -> (r: Option<Vec<TopicFilter>>)
    ensures
        match r {
            Some(fs) => parse_filters(s@) == Some(fs@.map_values(|f: TopicFilter| f@)),
            None => parse_filters(s@) is None,
        },
{
    let mut out: Vec<TopicFilter> = Vec::new();
    let mut cur: &[u8] = s;
    proof {
        assert(out@.map_values(|f: TopicFilter| f@) =~= Seq::<TopicFilterView>::empty());
        if let Some(fs) = parse_filters(s@) {
            assert(Seq::<TopicFilterView>::empty() + fs =~= fs);
        }
    }
    while cur.len() > 0
        invariant
            parse_filters(s@) == match parse_filters(cur@) {
                Some(fs) => Some(out@.map_values(|f: TopicFilter| f@) + fs),
                None => None::<Seq<TopicFilterView>>,
            },
        decreases cur@.len(),
    {
        match read_str(cur) {
            Some((t, r)) => {
                if r.len() < 1 || r.len() >= cur.len() {
                    return None;
                }
                let rest = slice_subrange(r, 1, r.len());
                let ghost before = out@.map_values(|f: TopicFilter| f@);
                let tf = TopicFilter { topic: t, options: r[0] };
                let ghost tv = tf@;
                out.push(tf);
                proof {
                    assert(rest@ =~= r@.skip(1));
                    assert(out@.map_values(|f: TopicFilter| f@) =~= before.push(tv));
                    if let Some(fs) = parse_filters(rest@) {
                        assert(before + (seq![tv] + fs) =~= before.push(tv) + fs);
                    }
                }
                cur = rest;
            },
            None => return None,
        }
    }
    proof {
        assert(out@.map_values(|f: TopicFilter| f@) + Seq::<TopicFilterView>::empty()
            =~= out@.map_values(|f: TopicFilter| f@));
    }
    Some(out)
}

fn read_topics(s: &[u8]) -> (r: Option<Vec<Vec<u8>>>)
    ensures
        match r {
            Some(ts) => parse_topics(s@) == Some(ts@.map_values(|t: Vec<u8>| t@)),
            None => parse_topics(s@) is None,
        },
{
    let mut out: Vec<Vec<u8>> = Vec::new();
    let mut cur: &[u8] = s;
    proof {
        assert(out@.map_values(|t: Vec<u8>| t@) =~= Seq::<Seq<u8>>::empty());
        if let Some(ts) = parse_topics(s@) {
            assert(Seq::<Seq<u8>>::empty() + ts =~= ts);
        }
    }
    while cur.len() > 0
        invariant
            parse_topics(s@) == match parse_topics(cur@) {
                Some(ts) => Some(out@.map_values(|t: Vec<u8>| t@) + ts),
                None => None::<Seq<Seq<u8>>>,
            },
        decreases cur@.len(),
    {
        match read_str(cur) {
            Some((t, r)) => {
                if r.len() >= cur.len() {
                    return None;
                }
                let ghost before = out@.map_values(|t: Vec<u8>| t@);
                let ghost tv = t@;
                out.push(t);
                proof {
                    assert(out@.map_values(|t: Vec<u8>| t@) =~= before.push(tv));
                    if let Some(ts) = parse_topics(r@) {
                        assert(before + (seq![tv] + ts) =~= before.push(tv) + ts);
                    }
                }
                cur = r;
            },
            None => return None,
        }
    }
    proof {
        assert(out@.map_values(|t: Vec<u8>| t@) + Seq::<Seq<u8>>::empty() =~= out@.map_values(
            |t: Vec<u8>| t@,
        ));
    }
    Some(out)
}

fn read_subscribe(b: &[u8]) -> (r: Option<Subscribe>)
    ensures
        match r {
            Some(x) => parse_subscribe(b@) == Some(x@),
            None => parse_subscribe(b@) is None,
        },
{
    match read_u16(b) {
        Some((id, r1)) => match read_props(r1) {
            Some((pr, r2)) => match read_filters(r2) {
                Some(fs) => Some(Subscribe { packet_identifier: id, properties: pr, topics: fs }),
                None => None,
            },
            None => None,
        },
        None => None,
    }
}

fn read_unsubscribe(b: &[u8]) -> (r: Option<Unsubscribe>)
    ensures
        match r {
            Some(x) => parse_unsubscribe(b@) == Some(x@),
            None => parse_unsubscribe(b@) is None,
        },
{
    match read_u16(b) {
        Some((id, r1)) => match read_props(r1) {
            Some((pr, r2)) => match read_topics(r2) {
                Some(ts) => Some(Unsubscribe { packet_identifier: id, properties: pr, topics: ts }),
                None => None,
            },
            None => None,
        },
        None => None,
    }
}

fn read_bin<'a>(s: &'a [u8]) -> (r: Option<(Vec<u8>, &'a [u8])>)
    ensures
        match r {
            Some((t, rest)) => parse_bin(s@) == Some((t@, rest@)),
            None => parse_bin(s@) is None,
        },
{
    match read_u16(s) {
        Some((len, r)) => {
            let n = len as usize;
            if n > r.len() {
                return None;
            }
            let t = slice_subrange(r, 0, n);
            proof {
                assert(t@ =~= r@.take(n as int));
            }
            Some((slice_to_vec(t), slice_subrange(r, n, r.len())))
        },
        None => None,
    }
}

fn read_credentials(flags: u8, r3: &[u8]) -> (r: Option<(Option<Vec<u8>>, Option<Vec<u8>>)>)
    ensures
        match r {
            Some((u, pw)) => parse_credentials(flags, r3@) == Some((opt_view(u), opt_view(pw))),
            None => parse_credentials(flags, r3@) is None,
        },
{
    let (u, r4) = if flags / 128 == 1 {
        match read_str(r3) {
            Some((u, r)) => (Some(u), r),
            None => return None,
        }
    } else {
        (None, r3)
    };
    let (pw, r5) = if (flags / 64) % 2 == 1 {
        match read_bin(r4) {
            Some((pw, r)) => (Some(pw), r),
            None => return None,
        }
    } else {
        (None, r4)
    };
    if r5.len() == 0 {
        Some((u, pw))
    } else {
        None
    }
}

fn read_connect(b: &[u8]) -> (r: Option<Connect>)
    ensures
        match r {
            Some(c) => parse_connect(b@) == Some(c@),
            None => parse_connect(b@) is None,
        },
{
    let (name, r1) = match read_str(b) {
        Some(x) => x,
        None => return None,
    };
    if !(name.len() == 4 && name[0] == 77 && name[1] == 81 && name[2] == 84 && name[3] == 84) {
        proof {
            if name@ == seq![77u8, 81u8, 84u8, 84u8] {
                assert(name@[0] == 77 && name@[1] == 81 && name@[2] == 84 && name@[3] == 84);
            }
        }
        return None;
    }
    proof {
        assert(name@ =~= seq![77u8, 81u8, 84u8, 84u8]);
    }
    if !(r1.len() >= 4 && r1[0] == 5 && r1[1] % 2 == 0 && (r1[1] / 4) % 16 == 0) {
        return None;
    }
    let flags = r1[1];
    let ka: u16 = r1[2] as u16 * 256 + r1[3] as u16;
    let (pr, r2) = match read_props(slice_subrange(r1, 4, r1.len())) {
        Some(x) => x,
        None => return None,
    };
    let (cid, r3) = match read_str(r2) {
        Some(x) => x,
        None => return None,
    };
    match read_credentials(flags, r3) {
        Some((u, pw)) => Some(
            Connect {
                clean_start: (flags / 2) % 2 == 1,
                keep_alive: ka,
                properties: pr,
                client_id: cid,
                username: u,
                password: pw,
            },
        ),
        None => None,
    }
}

fn read_body(h: u8, b: &[u8]) -> (r: Option<Packet>)
    ensures
        match r {
            Some(p) => parse_body(h, b@) == Some(p@),
            None => parse_body(h, b@) is None,
        },
{
    proof {
        reveal(parse_body);
    }
    let t = h / 16;
    let f = h % 16;
    if t == 3 {
        match read_publish(f, b) {
            Some(pb) => Some(Packet::Publish(pb)),
            None => None,
        }
    } else if t == 6 {
        if f != 2 {
            None
        } else {
            match read_ack(b) {
                Some(a) => Some(Packet::PubRel(a)),
                None => None,
            }
        }
    } else if t == 8 || t == 10 {
        if f != 2 {
            None
        } else if t == 8 {
            match read_subscribe(b) {
                Some(x) => Some(Packet::Subscribe(x)),
                None => None,
            }
        } else {
            match read_unsubscribe(b) {
                Some(x) => Some(Packet::Unsubscribe(x)),
                None => None,
            }
        }
    } else if f != 0 {
        None
    } else if t == 1 {
        match read_connect(b) {
            Some(c) => Some(Packet::Connect(c)),
            None => None,
        }
    } else if t == 2 {
        if b.len() >= 2 && b[0] <= 1 {
            match read_last_props(slice_subrange(b, 2, b.len())) {
                Some(pr) => Some(
                    Packet::ConnAck(
                        ConnAck { session_present: b[0] == 1, reason_code: b[1], properties: pr },
                    ),
                ),
                None => None,
            }
        } else {
            None
        }
    } else if t == 4 || t == 5 || t == 7 {
        match read_ack(b) {
            Some(a) => Some(
                if t == 4 {
                    Packet::PubAck(a)
                } else if t == 5 {
                    Packet::PubRec(a)
                } else {
                    Packet::PubComp(a)
                },
            ),
            None => None,
        }
    } else if t == 9 || t == 11 {
        match read_sub_ack(b) {
            Some(x) => Some(
                if t == 9 {
                    Packet::SubAck(x)
                } else {
                    Packet::UnsubAck(x)
                },
            ),
            None => None,
        }
    } else if t == 12 || t == 13 {
        if b.len() == 0 {
            Some(
                if t == 12 {
                    Packet::PingReq
                } else {
                    Packet::PingResp
                },
            )
        } else {
            None
        }
    } else if t == 14 || t == 15 {
        match read_reason(b) {
            Some(d) => Some(
                if t == 14 {
                    Packet::Disconnect(d)
                } else {
                    Packet::Auth(d)
                },
            ),
            None => None,
        }
    } else {
        None
    }
}

impl Packet {
    /// Reads the packet at the start of `buf`, with the number of bytes it
    /// takes. Nothing is consumed: on `NeedMore` the caller appends bytes
    /// and calls again.
    pub fn read(buf: &[u8]) -> (r: Result<(Packet, usize), DecodeError>)
        ensures
            match r {
                Ok((p, k)) => parse_packet(buf@) == Ok::<(PacketView, nat), DecodeError>((p@, k as nat)),
                Err(e) => parse_packet(buf@) == Err::<(PacketView, nat), DecodeError>(e),
            },
    {
        if buf.len() == 0 {
            return Err(DecodeError::NeedMore);
        }
        let tail = slice_subrange(buf, 1, buf.len());
        proof {
            assert(tail@ =~= buf@.skip(1));
        }
        match read_variable_integer(tail) {
            Err(VbiError::NeedMore) => Err(DecodeError::NeedMore),
            Err(VbiError::Malformed) => Err(DecodeError::MalformedPacket),
            Ok((n, k)) => {
                let n = n as usize;
                if k >= buf.len() || n > buf.len() - 1 - k {
                    return Err(DecodeError::NeedMore);
                }
                let body = slice_subrange(buf, 1 + k, 1 + k + n);
                match read_body(buf[0], body) {
                    Some(p) => if !properties_allowed(buf[0] / 16, properties_of(&p)) {
                        Err(DecodeError::MalformedPacket)
                    } else if properties_repeat(properties_of(&p)) {
                        Err(DecodeError::ProtocolError)
                    } else {
                        Ok((p, 1 + k + n))
                    },
                    None => Err(DecodeError::MalformedPacket),
                }
            },
        }
    }
}

proof fn lemma_u16_round_trip(x: u16, r: Seq<u8>)
    ensures
        parse_u16(be16(x) + r) == Some((x, r)),
{
    let s = be16(x) + r;
    assert(s.skip(2) =~= r);
    assert(s[0] == (x / 256) as u8 && s[1] == (x % 256) as u8);
}

proof fn lemma_str_round_trip(t: Seq<u8>, r: Seq<u8>)
    requires
        str_ok(t),
        no_nul(t),
        utf8_ok(t),
    ensures
        parse_str(str_enc(t) + r) == Some((t, r)),
{
    assert(str_enc(t) + r =~= be16(t.len() as u16) + (t + r));
    lemma_u16_round_trip(t.len() as u16, t + r);
    assert((t + r).take(t.len() as int) =~= t);
    assert((t + r).skip(t.len() as int) =~= r);
}

proof fn lemma_props_round_trip(p: Seq<u8>, r: Seq<u8>)
    requires
        props_ok(p),
        property_ids(p) is Some,
    ensures
        parse_props(props_enc(p) + r) == Some((p, r)),
        props_enc(p).len() >= 1,
{
    let s = props_enc(p) + r;
    assert(s =~= vbi_encode(p.len()) + (p + r));
    lemma_vbi_round_trip(p.len(), p + r);
    let k = vbi_encode(p.len()).len();
    assert(s.subrange(k as int, (k + p.len()) as int) =~= p);
    assert(s.skip((k + p.len()) as int) =~= r);
}

proof fn lemma_last_props_round_trip(p: Seq<u8>)
    requires
        props_ok(p),
        property_ids(p) is Some,
    ensures
        parse_last_props(props_enc(p)) == Some(p),
        props_enc(p).len() >= 1,
{
    lemma_props_round_trip(p, Seq::empty());
    assert(props_enc(p) + Seq::<u8>::empty() =~= props_enc(p));
}

/// A string field the reader accepts: UTF-8 without NUL.
pub open spec fn string_ok(t: Seq<u8>) -> bool {
    no_nul(t) && utf8_ok(t)
}

/// A property block the reader accepts: well formed, nothing but User
/// Property repeated.
pub open spec fn props_readable(pr: Seq<u8>) -> bool {
    property_ids(pr) is Some && !block_repeats(pr)
}

/// Whether every string field and the property block of the packet are
/// ones the reader accepts.
pub open spec fn strings_ok(p: PacketView) -> bool {
    &&& props_readable(packet_properties(p))
    &&& block_allowed(header_byte(p) / 16, packet_properties(p))
    &&& match p {
        PacketView::Connect(c) => string_ok(c.client_id) && match c.username {
            Some(u) => string_ok(u),
            None => true,
        },
        PacketView::Subscribe(x) => forall|i: int|
            0 <= i < x.topics.len() ==> string_ok(#[trigger] x.topics[i].topic),
        PacketView::Unsubscribe(x) => forall|i: int|
            0 <= i < x.topics.len() ==> string_ok(#[trigger] x.topics[i]),
        PacketView::Publish(pb) => string_ok(pb.topic),
        _ => true,
    }
}

proof fn lemma_filters_enc_front(t: Seq<TopicFilterView>)
    requires
        t.len() > 0,
    ensures
        filters_enc(t) == str_enc(t[0].topic) + (seq![t[0].options] + filters_enc(t.drop_first())),
    decreases t.len(),
{
    if t.len() == 1 {
        assert(t.drop_last() =~= Seq::<TopicFilterView>::empty());
        assert(t.drop_first() =~= Seq::<TopicFilterView>::empty());
        assert(filters_enc(t) =~= str_enc(t[0].topic) + (seq![t[0].options] + filters_enc(
            t.drop_first(),
        )));
    } else {
        lemma_filters_enc_front(t.drop_last());
        assert(t.drop_first().drop_last() =~= t.drop_last().drop_first());
        assert(t.drop_first().last() == t.last());
        assert(t.drop_last()[0] == t[0]);
        assert(filters_enc(t) =~= str_enc(t[0].topic) + (seq![t[0].options] + filters_enc(
            t.drop_first(),
        )));
    }
}

proof fn lemma_topics_enc_front(t: Seq<Seq<u8>>)
    requires
        t.len() > 0,
    ensures
        topics_enc(t) == str_enc(t[0]) + topics_enc(t.drop_first()),
    decreases t.len(),
{
    if t.len() == 1 {
        assert(t.drop_last() =~= Seq::<Seq<u8>>::empty());
        assert(t.drop_first() =~= Seq::<Seq<u8>>::empty());
        assert(topics_enc(t) =~= str_enc(t[0]) + topics_enc(t.drop_first()));
    } else {
        lemma_topics_enc_front(t.drop_last());
        assert(t.drop_first().drop_last() =~= t.drop_last().drop_first());
        assert(t.drop_first().last() == t.last());
        assert(t.drop_last()[0] == t[0]);
        assert(topics_enc(t) =~= str_enc(t[0]) + topics_enc(t.drop_first()));
    }
}

#[verifier::spinoff_prover]
proof fn lemma_filters_round_trip(t: Seq<TopicFilterView>)
    requires
        forall|i: int| 0 <= i < t.len() ==> str_ok(#[trigger] t[i].topic) && string_ok(t[i].topic),
    ensures
        parse_filters(filters_enc(t)) == Some(t),
    decreases t.len(),
{
    if t.len() == 0 {
        assert(filters_enc(t) =~= Seq::<u8>::empty());
        assert(t =~= Seq::<TopicFilterView>::empty());
    } else {
        lemma_filters_enc_front(t);
        let rest = t.drop_first();
        let r = seq![t[0].options] + filters_enc(rest);
        assert(str_ok(t[0].topic) && string_ok(t[0].topic));
        lemma_str_round_trip(t[0].topic, r);
        assert(r.skip(1) =~= filters_enc(rest));
        assert forall|i: int| 0 <= i < rest.len() implies str_ok(#[trigger] rest[i].topic) && string_ok(
            rest[i].topic,
        ) by {
            assert(rest[i] == t[i + 1]);
        }
        lemma_filters_round_trip(rest);
        assert(seq![TopicFilterView { topic: t[0].topic, options: t[0].options }] + rest =~= t);
    }
}

#[verifier::spinoff_prover]
proof fn lemma_topics_round_trip(t: Seq<Seq<u8>>)
    requires
        forall|i: int| 0 <= i < t.len() ==> str_ok(#[trigger] t[i]) && string_ok(t[i]),
    ensures
        parse_topics(topics_enc(t)) == Some(t),
    decreases t.len(),
{
    if t.len() == 0 {
        assert(topics_enc(t) =~= Seq::<u8>::empty());
        assert(t =~= Seq::<Seq<u8>>::empty());
    } else {
        lemma_topics_enc_front(t);
        let rest = t.drop_first();
        assert(str_ok(t[0]) && string_ok(t[0]));
        lemma_str_round_trip(t[0], topics_enc(rest));
        assert forall|i: int| 0 <= i < rest.len() implies str_ok(#[trigger] rest[i]) && string_ok(
            rest[i],
        ) by {
            assert(rest[i] == t[i + 1]);
        }
        lemma_topics_round_trip(rest);
        assert(seq![t[0]] + rest =~= t);
    }
}

proof fn lemma_subscribe_round_trip(x: SubscribeView)
    requires
        fields_ok(PacketView::Subscribe(x)),
        strings_ok(PacketView::Subscribe(x)),
    ensures
        parse_subscribe(body_enc(PacketView::Subscribe(x))) == Some(x),
{
    let f = filters_enc(x.topics);
    assert(body_enc(PacketView::Subscribe(x)) =~= be16(x.packet_identifier) + (props_enc(x.properties) + f));
    lemma_u16_round_trip(x.packet_identifier, props_enc(x.properties) + f);
    lemma_props_round_trip(x.properties, f);
    lemma_filters_round_trip(x.topics);
}

proof fn lemma_unsubscribe_round_trip(x: UnsubscribeView)
    requires
        fields_ok(PacketView::Unsubscribe(x)),
        strings_ok(PacketView::Unsubscribe(x)),
    ensures
        parse_unsubscribe(body_enc(PacketView::Unsubscribe(x))) == Some(x),
{
    let f = topics_enc(x.topics);
    assert(body_enc(PacketView::Unsubscribe(x)) =~= be16(x.packet_identifier) + (props_enc(x.properties) + f));
    lemma_u16_round_trip(x.packet_identifier, props_enc(x.properties) + f);
    lemma_props_round_trip(x.properties, f);
    lemma_topics_round_trip(x.topics);
}

proof fn lemma_ack_round_trip(a: Ack)
    ensures
        parse_ack(ack_enc(a)) == Some(a),
{
    let b = ack_enc(a);
    let x = a.packet_identifier;
    assert(b[0] == (x / 256) as u8 && b[1] == (x % 256) as u8 && b[2] == a.reason_code);
}

proof fn lemma_sub_ack_round_trip(x: SubAckView)
    requires
        props_ok(x.properties),
        props_readable(x.properties),
    ensures
        parse_sub_ack(be16(x.packet_identifier) + props_enc(x.properties) + x.reason_codes)
            == Some(x),
{
    let r = props_enc(x.properties) + x.reason_codes;
    assert(be16(x.packet_identifier) + props_enc(x.properties) + x.reason_codes =~= be16(
        x.packet_identifier,
    ) + r);
    lemma_u16_round_trip(x.packet_identifier, r);
    lemma_props_round_trip(x.properties, x.reason_codes);
}

proof fn lemma_reason_round_trip(d: ReasonPacketView)
    requires
        props_ok(d.properties),
        props_readable(d.properties),
    ensures
        parse_reason(seq![d.reason_code] + props_enc(d.properties)) == Some(d),
{
    let b = seq![d.reason_code] + props_enc(d.properties);
    lemma_last_props_round_trip(d.properties);
    assert(b.skip(1) =~= props_enc(d.properties));
}

proof fn lemma_publish_header(d: u8, q: u8, r: u8)
    requires
        d <= 1,
        q <= 2,
        r <= 1,
    ensures
        ({
            let h = (0x30 + d * 8 + q * 2 + r) as u8;
            &&& h / 16 == 3
            &&& ((h % 16) / 2) % 4 == q
            &&& (h % 16) / 8 == d
            &&& (h % 16) % 2 == r
        }),
{
    assert((0x30 + d * 8 + q * 2 + r) as u8 / 16 == 3 && (((0x30 + d * 8 + q * 2 + r) as u8 % 16) / 2) % 4 == q
        && ((0x30 + d * 8 + q * 2 + r) as u8 % 16) / 8 == d && ((0x30 + d * 8 + q * 2 + r) as u8 % 16) % 2 == r) by (bit_vector)
        requires
            d <= 1,
            q <= 2,
            r <= 1,
    ;
}

#[verifier::spinoff_prover]
proof fn lemma_publish_round_trip(pb: PublishView)
    requires
        fields_ok(PacketView::Publish(pb)),
        no_nul(pb.topic),
        utf8_ok(pb.topic),
        props_readable(pb.properties),
    ensures
        parse_body(header_byte(PacketView::Publish(pb)), body_enc(PacketView::Publish(pb)))
            == Some(PacketView::Publish(pb)),
{
    reveal(parse_body);
    let h = header_byte(PacketView::Publish(pb));
    let f = h % 16;
    lemma_publish_header(bit(pb.dup, 1), pb.qos.spec_to_bits(), bit(pb.retain, 1));
    assert(h == (0x30 + bit(pb.dup, 1) * 8 + pb.qos.spec_to_bits() * 2 + bit(pb.retain, 1)) as u8);
    assert(QoS::spec_from_bits((f / 2) % 4) == Some(pb.qos));
    let pk = match pb.packet_identifier {
        Some(id) => be16(id),
        None => Seq::<u8>::empty(),
    };
    let r1 = pk + props_enc(pb.properties) + pb.payload;
    assert(body_enc(PacketView::Publish(pb)) =~= str_enc(pb.topic) + r1);
    lemma_str_round_trip(pb.topic, r1);
    let r2 = props_enc(pb.properties) + pb.payload;
    lemma_props_round_trip(pb.properties, pb.payload);
    match pb.packet_identifier {
        Some(id) => {
            assert(r1 =~= be16(id) + r2);
            lemma_u16_round_trip(id, r2);
        },
        None => {
            assert(r1 =~= r2);
        },
    }
    assert(parse_publish(f, body_enc(PacketView::Publish(pb))) == Some(pb));
}

proof fn lemma_bin_round_trip(t: Seq<u8>, r: Seq<u8>)
    requires
        str_ok(t),
    ensures
        parse_bin(str_enc(t) + r) == Some((t, r)),
{
    assert(str_enc(t) + r =~= be16(t.len() as u16) + (t + r));
    lemma_u16_round_trip(t.len() as u16, t + r);
    assert((t + r).take(t.len() as int) =~= t);
    assert((t + r).skip(t.len() as int) =~= r);
}

proof fn lemma_ascii_utf8(s: Seq<u8>)
    requires
        forall|i: int| 0 <= i < s.len() ==> #[trigger] s[i] < 0x80,
    ensures
        utf8_ok(s),
    decreases s.len(),
{
    if s.len() > 0 {
        let t = s.skip(1);
        assert forall|i: int| 0 <= i < t.len() implies #[trigger] t[i] < 0x80 by {
            assert(t[i] == s[i + 1]);
        }
        lemma_ascii_utf8(t);
    }
}

proof fn lemma_connect_flags(u: u8, p: u8, c: u8)
    requires
        u <= 1,
        p <= 1,
        c <= 1,
    ensures
        ({
            let f = (u * 0x80 + p * 0x40 + c * 2) as u8;
            &&& f % 2 == 0
            &&& (f / 4) % 16 == 0
            &&& f / 128 == u
            &&& (f / 64) % 2 == p
            &&& (f / 2) % 2 == c
        }),
{
    assert(((u * 0x80 + p * 0x40 + c * 2) as u8) % 2 == 0 && (((u * 0x80 + p * 0x40 + c * 2) as u8)
        / 4) % 16 == 0 && ((u * 0x80 + p * 0x40 + c * 2) as u8) / 128 == u && (((u * 0x80 + p
        * 0x40 + c * 2) as u8) / 64) % 2 == p && (((u * 0x80 + p * 0x40 + c * 2) as u8) / 2) % 2
        == c) by (bit_vector)
        requires
            u <= 1,
            p <= 1,
            c <= 1,
    ;
}

proof fn lemma_credentials_round_trip(c: ConnectView)
    requires
        fields_ok(PacketView::Connect(c)),
        strings_ok(PacketView::Connect(c)),
    ensures
        parse_credentials(connect_flags(c), opt_str_enc(c.username) + opt_str_enc(c.password))
            == Some((c.username, c.password)),
{
    let flags = connect_flags(c);
    lemma_connect_flags(bit(c.username is Some, 1), bit(c.password is Some, 1), bit(c.clean_start, 1));
    assert(flags == (bit(c.username is Some, 1) * 0x80 + bit(c.password is Some, 1) * 0x40 + bit(
        c.clean_start,
        1,
    ) * 2) as u8);
    let pw = opt_str_enc(c.password);
    match c.username {
        Some(u) => lemma_str_round_trip(u, pw),
        None => assert(opt_str_enc(c.username) + pw =~= pw),
    }
    match c.password {
        Some(x) => {
            lemma_bin_round_trip(x, Seq::empty());
            assert(str_enc(x) + Seq::<u8>::empty() =~= str_enc(x));
        },
        None => {},
    }
}

#[verifier::spinoff_prover]
#[verifier::rlimit(60)]
proof fn lemma_connect_body_round_trip(c: ConnectView)
    requires
        fields_ok(PacketView::Connect(c)),
        strings_ok(PacketView::Connect(c)),
    ensures
        parse_connect(body_enc(PacketView::Connect(c))) == Some(c),
{
    let name = seq![77u8, 81u8, 84u8, 84u8];
    lemma_ascii_utf8(name);
    let flags = connect_flags(c);
    lemma_connect_flags(bit(c.username is Some, 1), bit(c.password is Some, 1), bit(c.clean_start, 1));
    assert(flags == (bit(c.username is Some, 1) * 0x80 + bit(c.password is Some, 1) * 0x40 + bit(
        c.clean_start,
        1,
    ) * 2) as u8);
    let cred = opt_str_enc(c.username) + opt_str_enc(c.password);
    let r2 = str_enc(c.client_id) + cred;
    let q = be16(c.keep_alive) + (props_enc(c.properties) + r2);
    let r1 = seq![5u8, flags] + q;
    let b = body_enc(PacketView::Connect(c));
    assert(b =~= str_enc(name) + r1);
    lemma_str_round_trip(name, r1);
    assert(parse_str(b) == Some((name, r1)));
    lemma_u16_round_trip(c.keep_alive, props_enc(c.properties) + r2);
    assert(r1[2] == q[0] && r1[3] == q[1]);
    assert((r1[2] as nat * 256 + r1[3] as nat) as u16 == c.keep_alive);
    assert(r1.skip(4) =~= props_enc(c.properties) + r2);
    lemma_props_round_trip(c.properties, r2);
    assert(parse_props(r1.skip(4)) == Some((c.properties, r2)));
    lemma_str_round_trip(c.client_id, cred);
    lemma_credentials_round_trip(c);
    assert(r1[0] == 5 && r1[1] == flags);
}

proof fn lemma_connect_round_trip(c: ConnectView)
    requires
        fields_ok(PacketView::Connect(c)),
        strings_ok(PacketView::Connect(c)),
    ensures
        parse_body(header_byte(PacketView::Connect(c)), body_enc(PacketView::Connect(c)))
            == Some(PacketView::Connect(c)),
{
    lemma_connect_body_round_trip(c);
    reveal(parse_body);
}

#[verifier::spinoff_prover]
proof fn lemma_body_round_trip_acks(p: PacketView)
    requires
        p is PubAck || p is PubRec || p is PubRel || p is PubComp || p is PingReq || p is PingResp,
    ensures
        parse_body(header_byte(p), body_enc(p)) == Some(p),
{
    reveal(parse_body);
    match p {
        PacketView::PubAck(a) => lemma_ack_round_trip(a),
        PacketView::PubRec(a) => lemma_ack_round_trip(a),
        PacketView::PubRel(a) => lemma_ack_round_trip(a),
        PacketView::PubComp(a) => lemma_ack_round_trip(a),
        _ => {},
    }
}

#[verifier::spinoff_prover]
proof fn lemma_body_round_trip_lists(p: PacketView)
    requires
        p is Subscribe || p is Unsubscribe || p is SubAck || p is UnsubAck,
        fields_ok(p),
        strings_ok(p),
    ensures
        parse_body(header_byte(p), body_enc(p)) == Some(p),
{
    reveal(parse_body);
    match p {
        PacketView::Subscribe(x) => lemma_subscribe_round_trip(x),
        PacketView::Unsubscribe(x) => lemma_unsubscribe_round_trip(x),
        PacketView::SubAck(x) => lemma_sub_ack_round_trip(x),
        PacketView::UnsubAck(x) => lemma_sub_ack_round_trip(x),
        _ => {},
    }
}

#[verifier::spinoff_prover]
#[verifier::rlimit(80)]
proof fn lemma_body_round_trip_reasons(p: PacketView)
    requires
        p is ConnAck || p is Disconnect || p is Auth,
        fields_ok(p),
        strings_ok(p),
    ensures
        parse_body(header_byte(p), body_enc(p)) == Some(p),
{
    reveal(parse_body);
    let b = body_enc(p);
    match p {
        PacketView::ConnAck(c) => {
            lemma_last_props_round_trip(c.properties);
            assert(b.skip(2) =~= props_enc(c.properties));
        },
        PacketView::Disconnect(d) => lemma_reason_round_trip(d),
        PacketView::Auth(d) => lemma_reason_round_trip(d),
        _ => {},
    }
}

proof fn lemma_body_round_trip(p: PacketView)
    requires
        fields_ok(p),
        strings_ok(p),
    ensures
        parse_body(header_byte(p), body_enc(p)) == Some(p),
{
    match p {
        PacketView::Publish(pb) => lemma_publish_round_trip(pb),
        PacketView::Connect(c) => lemma_connect_round_trip(c),
        PacketView::ConnAck(_) => lemma_body_round_trip_reasons(p),
        PacketView::Disconnect(_) => lemma_body_round_trip_reasons(p),
        PacketView::Auth(_) => lemma_body_round_trip_reasons(p),
        PacketView::Subscribe(_) => lemma_body_round_trip_lists(p),
        PacketView::Unsubscribe(_) => lemma_body_round_trip_lists(p),
        PacketView::SubAck(_) => lemma_body_round_trip_lists(p),
        PacketView::UnsubAck(_) => lemma_body_round_trip_lists(p),
        _ => lemma_body_round_trip_acks(p),
    }
}

/// Reading the wire form of a packet whose strings the reader accepts,
/// whatever bytes follow, gives back the same packet and consumes exactly
/// its encoding.
pub proof fn lemma_packet_round_trip(p: PacketView, rest: Seq<u8>)
    requires
        encodable(p),
        strings_ok(p),
    ensures
        parse_packet(packet_encode(p) + rest) == Ok::<(PacketView, nat), DecodeError>(
            (p, packet_encode(p).len()),
        ),
{
    let b = body_enc(p);
    let n = b.len();
    let s = packet_encode(p) + rest;
    assert(s.skip(1) =~= vbi_encode(n) + (b + rest));
    lemma_vbi_round_trip(n, b + rest);
    let k = vbi_encode(n).len();
    assert(s.subrange((1 + k) as int, (1 + k + n) as int) =~= b);
    assert(s[0] == header_byte(p));
    lemma_body_round_trip(p);
}

} // verus!
