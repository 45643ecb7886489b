use vstd::prelude::*;
use crate::codec::utf8;
use crate::decode::{consume, decode_spec, try_decode, DecodeError, Decoded, DecodedModel};
use crate::packet::{
    ConnectModel, ConnectPacket, ConnectReturnCode, MqttPacket, PacketModel, PacketType,
    PublishPacket,
};
use crate::topic::copy_bytes;
use crate::topic::bytes_eq;

verus! {

/// How long a new connection may take to send CONNECT, in milliseconds.
pub const CONNECT_TIMEOUT_MS: u64 = 10000;

/// The keep-alive used when CONNECT asks for 0, in seconds.
pub const DEFAULT_KEEP_ALIVE_SECS: u64 = 60;

/// The state of one client connection.
#[derive(Debug, Clone, Copy, PartialEq, Eq, Structural)]
pub enum ClientState {
    /// Accepted; only CONNECT may arrive.
    AwaitingConnect,
    /// CONNECT accepted; packets flow.
    Connected,
    /// Closed; nothing more is read.
    Disconnected,
}

/// What happened on a connection.
#[derive(Debug, Clone, Copy, PartialEq, Eq, Structural)]
pub enum ConnectionEvent {
    /// A packet of this kind was decoded.
    Packet(PacketType),
    /// No bytes arrived within the allowed time.
    Timeout,
    /// The peer closed the socket or a read failed.
    SocketClosed,
    /// The bytes received are not valid MQTT.
    Malformed,
    /// The router closed this connection (a newer one has the same id).
    Displaced,
}

/// What the connection must do about an event.
#[derive(Debug, Clone, Copy, PartialEq, Eq, Structural)]
pub enum ConnectionAction {
    /// Validate the CONNECT and answer it.
    HandleConnect,
    /// Hand the packet to the router.
    Forward,
    /// Close without publishing the will (DISCONNECT, displacement, or a
    /// connection that never completed CONNECT).
    CloseClean,
    /// Close and report an abnormal end, which publishes the will.
    CloseAbnormal,
    /// Nothing to do.
    Ignore,
}

/// The transition of the connection state machine.
pub open spec fn step_spec(state: ClientState, event: ConnectionEvent) -> (ClientState, ConnectionAction) {
    match state {
        ClientState::AwaitingConnect => match event {
            ConnectionEvent::Packet(PacketType::Connect) => (
                ClientState::Connected,
                ConnectionAction::HandleConnect,
            ),
            _ => (ClientState::Disconnected, ConnectionAction::CloseClean),
        },
        ClientState::Connected => match event {
            ConnectionEvent::Packet(PacketType::Connect) => (
                ClientState::Disconnected,
                ConnectionAction::CloseAbnormal,
            ),
            ConnectionEvent::Packet(PacketType::Disconnect) => (
                ClientState::Disconnected,
                ConnectionAction::CloseClean,
            ),
            ConnectionEvent::Packet(_) => (ClientState::Connected, ConnectionAction::Forward),
            ConnectionEvent::Displaced => (ClientState::Disconnected, ConnectionAction::CloseClean),
            _ => (ClientState::Disconnected, ConnectionAction::CloseAbnormal),
        },
        ClientState::Disconnected => (ClientState::Disconnected, ConnectionAction::Ignore),
    }
}

/// Applies one event to the state of a connection.
pub fn step(state: ClientState, event: ConnectionEvent) -> (r: (ClientState, ConnectionAction))
    ensures
        r == step_spec(state, event),
{
    match state {
        ClientState::AwaitingConnect => match event {
            ConnectionEvent::Packet(PacketType::Connect) => (
                ClientState::Connected,
                ConnectionAction::HandleConnect,
            ),
            _ => (ClientState::Disconnected, ConnectionAction::CloseClean),
        },
        ClientState::Connected => match event {
            ConnectionEvent::Packet(PacketType::Connect) => (
                ClientState::Disconnected,
                ConnectionAction::CloseAbnormal,
            ),
            ConnectionEvent::Packet(PacketType::Disconnect) => (
                ClientState::Disconnected,
                ConnectionAction::CloseClean,
            ),
            ConnectionEvent::Packet(_) => (ClientState::Connected, ConnectionAction::Forward),
            ConnectionEvent::Displaced => (ClientState::Disconnected, ConnectionAction::CloseClean),
            _ => (ClientState::Disconnected, ConnectionAction::CloseAbnormal),
        },
        ClientState::Disconnected => (ClientState::Disconnected, ConnectionAction::Ignore),
    }
}

/// How long a connected client may stay silent, in milliseconds: one and
/// a half times its keep-alive, with 0 meaning 60 seconds.
pub fn keepalive_timeout_ms(keep_alive: u16) -> (r: u64)
    ensures
        r == (if keep_alive == 0 {
            DEFAULT_KEEP_ALIVE_SECS
        } else {
            keep_alive as u64
        }) * 1500,
{
    let secs: u64 = if keep_alive == 0 { DEFAULT_KEEP_ALIVE_SECS } else { keep_alive as u64 };
    secs * 1500
}

/// The UTF-8 bytes of the protocol name "MQTT".
pub open spec fn mqtt_name() -> Seq<u8> {
    seq![77u8, 81u8, 84u8, 84u8]
}

/// The CONNACK code for a CONNECT: 1 unless the protocol is "MQTT" level 4;
/// 2 for an empty client id; with a user name, 4 unless the credential
/// store accepted it; without one, 5 unless anonymous clients are allowed;
/// 0 otherwise.
pub open spec fn connect_code(c: ConnectModel, authenticated: bool, allow_anonymous: bool) -> ConnectReturnCode {
    if utf8(c.protocol_name) != mqtt_name() || c.protocol_level != 4 {
        ConnectReturnCode::RefusedBadProtocolVersion
    } else if c.client_id.len() == 0 {
        ConnectReturnCode::RefusedIdentifierRejected
    } else if c.username is Some {
        if authenticated {
            ConnectReturnCode::Accepted
        } else {
            ConnectReturnCode::RefusedBadUsernameOrPassword
        }
    } else if allow_anonymous {
        ConnectReturnCode::Accepted
    } else {
        ConnectReturnCode::RefusedNotAuthorized
    }
}

/// Decides the answer to a CONNECT. `authenticated` is the credential
/// store's verdict on the user name and password (read only when a user
/// name is present).
pub fn connect_return_code(c: &ConnectPacket, authenticated: bool, allow_anonymous: bool) -> (r: ConnectReturnCode)
    ensures
        r == connect_code(c@, authenticated, allow_anonymous),
{
    let name: [u8; 4] = [77u8, 81u8, 84u8, 84u8];
    let is_mqtt = bytes_eq(c.protocol_name.as_str().as_bytes(), name.as_slice());
    proof {
        assert(name@ =~= mqtt_name());
    }
    if !is_mqtt || c.protocol_level != 4 {
        return ConnectReturnCode::RefusedBadProtocolVersion;
    }
    if c.client_id.as_str().as_bytes().len() == 0 {
        proof {
            vstd::utf8::encode_utf8_decode_utf8(c.client_id@);
        }
        assert(c.client_id@ =~= Seq::<char>::empty()) by {
            assert(utf8(c.client_id@) =~= Seq::<u8>::empty());
        }
        return ConnectReturnCode::RefusedIdentifierRejected;
    }
    proof {
        if c.client_id@.len() == 0 {
            assert(c.client_id@ =~= Seq::<char>::empty());
            assert(utf8(c.client_id@) =~= Seq::<u8>::empty());
        }
    }
    match c.username {
        Some(_) => if authenticated {
            ConnectReturnCode::Accepted
        } else {
            ConnectReturnCode::RefusedBadUsernameOrPassword
        },
        None => if allow_anonymous {
            ConnectReturnCode::Accepted
        } else {
            ConnectReturnCode::RefusedNotAuthorized
        },
    }
}

pub open spec fn packets_view(v: Seq<MqttPacket>) -> Seq<PacketModel> {
    v.map_values(|p: MqttPacket| p@)
}

/// What the bytes `b` received so far hold: the complete packets at their
/// front, in order, the bytes left after them, and the error that stopped
/// decoding, if any.
pub open spec fn frames(b: Seq<u8>) -> (Seq<PacketModel>, Seq<u8>, Option<DecodeError>)
    decreases b.len(),
{
    match decode_spec(b) {
        DecodedModel::Need(_) => (Seq::empty(), b, None),
        DecodedModel::Error(e) => (Seq::empty(), b, Some(e)),
        DecodedModel::Packet(m, n) => if 0 < n <= b.len() {
            let r = frames(b.skip(n as int));
            (seq![m] + r.0, r.1, r.2)
        } else {
            (Seq::empty(), b, None)
        },
    }
}

/// Decodes every complete packet at the front of `buffer`, in order, and
/// leaves the bytes of an incomplete one. Stops at the first malformed
/// packet and reports its error; the connection is then to be closed.
pub fn read_packets(buffer: &mut Vec<u8>) -> (r: (Vec<MqttPacket>, Option<DecodeError>))
    ensures
        packets_view(r.0@) == frames(old(buffer)@).0,
        final(buffer)@ == frames(old(buffer)@).1,
        r.1 == frames(old(buffer)@).2,
{
    let mut packets: Vec<MqttPacket> = Vec::new();
    loop
        invariant
            frames(old(buffer)@) == (
                packets_view(packets@) + frames(buffer@).0,
                frames(buffer@).1,
                frames(buffer@).2,
            ),
        decreases buffer@.len(),
    {
        let ghost cur = buffer@;
        match try_decode(buffer.as_slice()) {
            Decoded::Need(_) => {
                assert(packets_view(packets@) + Seq::<PacketModel>::empty() =~= packets_view(packets@));
                return (packets, None);
            },
            Decoded::Error(e) => {
                assert(packets_view(packets@) + Seq::<PacketModel>::empty() =~= packets_view(packets@));
                return (packets, Some(e));
            },
            Decoded::Packet(p, n) => {
                if n == 0 || n > buffer.len() {
                    assert(packets_view(packets@) + Seq::<PacketModel>::empty() =~= packets_view(packets@));
                    return (packets, None);
                }
                consume(buffer, n);
                let ghost pv = p@;
                let ghost before = packets@;
                packets.push(p);
                proof {
                    assert(packets_view(packets@) =~= packets_view(before).push(pv));
                    assert(packets_view(before) + (seq![pv] + frames(buffer@).0) =~= packets_view(packets@) + frames(buffer@).0);
                }
            },
        }
    }
}

/// Whether a CONNECT asks for a clean session (flag bit 0x02).
pub fn clean_session(c: &ConnectPacket) -> (r: bool)
    ensures
        r == ((c.connect_flags / 2) % 2 == 1),
{
    c.connect_flags / 2 % 2 == 1
}

/// The will message a CONNECT registers: its will topic and message, with
/// the will qos (bits 0x18) and will retain (bit 0x20) of the flags. It has
/// no packet id of its own; each delivery gets a fresh one.
pub fn will_message(c: &ConnectPacket) -> (r: Option<PublishPacket>)
    ensures
        r is Some <==> (c.will_topic is Some && c.will_message is Some),
        r matches Some(w) ==> {
            &&& w.topic_name@ == c.will_topic.unwrap()@
            &&& w.payload@ == c.will_message.unwrap()@
            &&& w.qos == (c.connect_flags / 8) % 4
            &&& w.retain == ((c.connect_flags / 32) % 2 == 1)
            &&& !w.dup
            &&& w.packet_id is None
        },
{
    match (&c.will_topic, &c.will_message) {
        (Some(topic), Some(message)) => Some(
            PublishPacket {
                dup: false,
                qos: c.connect_flags / 8 % 4,
                retain: c.connect_flags / 32 % 2 == 1,
                topic_name: topic.clone(),
                packet_id: None,
                payload: copy_bytes(message),
            },
        ),
        _ => None,
    }
}

} // verus!
