//! The decisions of the network endpoint: which packets a read buffer holds
//! and how many bytes they take, and whether the connect phase succeeded.
//! The endpoint's I/O runs around these.
use crate::decode::parse_packet;
use crate::packets::{DecodeError, Packet, PacketView};
use vstd::prelude::*;
use vstd::slice::slice_subrange;

verus! {

/// Why a session could not be started or kept going.
#[derive(Debug, Clone, Copy, PartialEq, Eq, Structural)]
pub enum ConnectionError {
    /// The bytes from the peer break the wire format.
    MalformedPacket,
    /// A packet from the peer repeats a property that may appear once.
    ProtocolError,
    /// The first packet after Connect was not a ConnAck.
    UnexpectedPacket,
    /// The connect phase took longer than its budget.
    ConnectionTimeout,
    /// The transport failed.
    TransportError,
}

/// The whole packets at the front of `s`, in order, and the bytes they
/// take, up to the first frame that cannot be read. With it comes the error
/// that frame gave, or `None` when the rest is the start of a packet still
/// arriving.
pub open spec fn parse_all(s: Seq<u8>) -> (Seq<PacketView>, nat, Option<DecodeError>)
    decreases s.len(),
{
    match parse_packet(s) {
        Ok((p, k)) => if 0 < k <= s.len() {
            let (ps, m, e) = parse_all(s.skip(k as int));
            (seq![p] + ps, k + m, e)
        } else {
            (Seq::empty(), 0, Some(DecodeError::MalformedPacket))
        },
        Err(DecodeError::NeedMore) => (Seq::empty(), 0, None),
        Err(e) => (Seq::empty(), 0, Some(e)),
    }
}

pub open spec fn views(ps: Seq<Packet>) -> Seq<PacketView> {
    ps.map_values(|p: Packet| p@)
}

/// Reads the whole packets from the front of `buf`, stopping at the first
/// frame that cannot be read: the packets before it, the bytes they take,
/// and that frame's error. The caller hands on the packets, drops the bytes
/// consumed, and then ends the session if there was an error.
pub fn read_packets(buf: &[u8]) -> (r: (Vec<Packet>, usize, Option<DecodeError>))
    ensures
        parse_all(buf@) == (views(r.0@), r.1 as nat, r.2),
{
    let mut out: Vec<Packet> = Vec::new();
    let mut pos: usize = 0;
    proof {
        assert(buf@.skip(0) =~= buf@);
        assert(views(out@) =~= Seq::<PacketView>::empty());
        let (ps, m, e) = parse_all(buf@);
        assert(Seq::<PacketView>::empty() + ps =~= ps);
    }
    while pos < buf.len()
        invariant
            pos <= buf@.len(),
            ({
                let (rest, m, e) = parse_all(buf@.skip(pos as int));
                parse_all(buf@) == (views(out@) + rest, (pos + m) as nat, e)
            }),
        decreases buf@.len() - pos,
    {
        let tail = slice_subrange(buf, pos, buf.len());
        proof {
            assert(tail@ =~= buf@.skip(pos as int));
        }
        match Packet::read(tail) {
            Ok((p, k)) => {
                proof {
                    let s = buf@.skip(pos as int);
                    assert(s.skip(k as int) =~= buf@.skip(pos + k));
                    let (rest, m, e) = parse_all(s.skip(k as int));
                    assert(views(out@) + (seq![p@] + rest) =~= views(out@).push(p@) + rest);
                }
                let ghost pv = p@;
                let ghost before = out@;
                out.push(p);
                proof {
                    assert(views(out@) =~= views(before).push(pv));
                }
                pos = pos + k;
            },
            Err(DecodeError::NeedMore) => {
                proof {
                    assert(views(out@) + Seq::<PacketView>::empty() =~= views(out@));
                }
                return (out, pos, None);
            },
            Err(e) => {
                proof {
                    assert(views(out@) + Seq::<PacketView>::empty() =~= views(out@));
                }
                return (out, pos, Some(e));
            },
        }
    }
    proof {
        assert(buf@.skip(pos as int).len() == 0);
        assert(views(out@) + Seq::<PacketView>::empty() =~= views(out@));
    }
    (out, pos, None)
}

/// The connect phase reads exactly one packet: it must be a ConnAck.
pub fn expect_connack(p: Packet) -> (r: Result<Packet, ConnectionError>)
    ensures
        p is ConnAck ==> r == Ok::<Packet, ConnectionError>(p),
        !(p is ConnAck) ==> r == Err::<Packet, ConnectionError>(ConnectionError::UnexpectedPacket),
{
    match p {
        Packet::ConnAck(_) => Ok(p),
        _ => Err(ConnectionError::UnexpectedPacket),
    }
}

} // verus!
