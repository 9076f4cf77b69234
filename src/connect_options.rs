//! The configuration of a session, and the Connect packet it leads to.
use crate::packets::{Connect, ConnectView, Packet, PacketView};
use vstd::prelude::*;

verus! {

/// Property identifier of Session Expiry Interval.
pub const SESSION_EXPIRY_INTERVAL: u8 = 0x11;

/// Property identifier of Receive Maximum.
pub const RECEIVE_MAXIMUM: u8 = 0x21;

/// Property identifier of Maximum Packet Size.
pub const MAXIMUM_PACKET_SIZE: u8 = 0x27;

/// Property identifier of Topic Alias Maximum.
pub const TOPIC_ALIAS_MAXIMUM: u8 = 0x22;

/// Immutable settings of a session.
#[derive(Debug, Clone)]
pub struct ConnectOptions {
    pub address: String,
    pub port: u16,
    pub client_id: Vec<u8>,
    pub keep_alive_interval_s: u16,
    pub connection_timeout_s: u64,
    pub clean_start: bool,
    pub username: Option<Vec<u8>>,
    pub password: Option<Vec<u8>>,
    pub session_expiry_interval: u32,
    /// 1..=65535; 65535 when not given.
    pub receive_maximum: u16,
    /// 0 when not given.
    pub maximum_packet_size: u32,
    /// 0 when not given.
    pub topic_alias_maximum: u16,
}

pub open spec fn be16_of(x: u16) -> Seq<u8> {
    seq![(x / 256) as u8, (x % 256) as u8]
}

pub open spec fn be32_of(x: u32) -> Seq<u8> {
    seq![(x / 0x1000000) as u8, ((x / 0x10000) % 256) as u8, ((x / 256) % 256) as u8, (x % 256) as u8]
}

/// The Connect properties: each setting that differs from the protocol's
/// default, in identifier order.
pub open spec fn connect_properties(o: ConnectOptions) -> Seq<u8> {
    (if o.session_expiry_interval != 0 {
        seq![SESSION_EXPIRY_INTERVAL] + be32_of(o.session_expiry_interval)
    } else {
        Seq::empty()
    }) + (if o.receive_maximum != 65535 {
        seq![RECEIVE_MAXIMUM] + be16_of(o.receive_maximum)
    } else {
        Seq::empty()
    }) + (if o.topic_alias_maximum != 0 {
        seq![TOPIC_ALIAS_MAXIMUM] + be16_of(o.topic_alias_maximum)
    } else {
        Seq::empty()
    }) + (if o.maximum_packet_size != 0 {
        seq![MAXIMUM_PACKET_SIZE] + be32_of(o.maximum_packet_size)
    } else {
        Seq::empty()
    })
}

fn push_be16(x: u16, buf: &mut Vec<u8>)
    ensures
        final(buf)@ == old(buf)@ + be16_of(x),
{
    buf.push((x / 256) as u8);
    buf.push((x % 256) as u8);
    proof {
        assert(buf@ =~= old(buf)@ + be16_of(x));
    }
}

fn push_be32(x: u32, buf: &mut Vec<u8>)
    ensures
        final(buf)@ == old(buf)@ + be32_of(x),
{
    buf.push((x / 0x1000000) as u8);
    buf.push(((x / 0x10000) % 256) as u8);
    buf.push(((x / 256) % 256) as u8);
    buf.push((x % 256) as u8);
    proof {
        assert(buf@ =~= old(buf)@ + be32_of(x));
    }
}

impl ConnectOptions {
    /// Options with the protocol's defaults: keepalive 60 s, connection
    /// timeout 30 s, clean start, no credentials, receive maximum 65535.
    pub fn new(address: String, port: u16, client_id: Vec<u8>) -> (r: Self)
        ensures
            r.address == address,
            r.port == port,
            r.client_id == client_id,
            r.keep_alive_interval_s == 60,
            r.connection_timeout_s == 30,
            r.clean_start,
            r.username is None,
            r.password is None,
            r.session_expiry_interval == 0,
            r.receive_maximum == 65535,
            r.maximum_packet_size == 0,
            r.topic_alias_maximum == 0,
    {
        ConnectOptions {
            address,
            port,
            client_id,
            keep_alive_interval_s: 60,
            connection_timeout_s: 30,
            clean_start: true,
            username: None,
            password: None,
            session_expiry_interval: 0,
            receive_maximum: 65535,
            maximum_packet_size: 0,
            topic_alias_maximum: 0,
        }
    }

    pub fn receive_maximum(&self) -> (r: u16)
        ensures
            r == self.receive_maximum,
    {
        self.receive_maximum
    }

    /// The Connect that opens a session with these options.
    pub fn connect_packet(&self) -> (r: Packet)
        ensures
            r@ == PacketView::Connect(
                ConnectView {
                    clean_start: self.clean_start,
                    keep_alive: self.keep_alive_interval_s,
                    properties: connect_properties(*self),
                    client_id: self.client_id@,
                    username: match self.username {
                        Some(u) => Some(u@),
                        None => None,
                    },
                    password: match self.password {
                        Some(p) => Some(p@),
                        None => None,
                    },
                },
            ),
    {
        let mut props: Vec<u8> = Vec::new();
        let ghost o = *self;
        if self.session_expiry_interval != 0 {
            props.push(SESSION_EXPIRY_INTERVAL);
            push_be32(self.session_expiry_interval, &mut props);
        }
        if self.receive_maximum != 65535 {
            props.push(RECEIVE_MAXIMUM);
            push_be16(self.receive_maximum, &mut props);
        }
        if self.topic_alias_maximum != 0 {
            props.push(TOPIC_ALIAS_MAXIMUM);
            push_be16(self.topic_alias_maximum, &mut props);
        }
        if self.maximum_packet_size != 0 {
            props.push(MAXIMUM_PACKET_SIZE);
            push_be32(self.maximum_packet_size, &mut props);
        }
        proof {
            assert(props@ =~= connect_properties(o));
        }
        let username = match &self.username {
            Some(u) => Some(u.clone()),
            None => None,
        };
        let password = match &self.password {
            Some(p) => Some(p.clone()),
            None => None,
        };
        Packet::Connect(
            Connect {
                clean_start: self.clean_start,
                keep_alive: self.keep_alive_interval_s,
                properties: props,
                client_id: self.client_id.clone(),
                username,
                password,
            },
        )
    }
}

} // verus!
