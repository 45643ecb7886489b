use vstd::prelude::*;
use vstd::slice::{slice_subrange, slice_to_vec};
use vstd::utf8::{decode_utf8, encode_utf8, encode_utf8_decode_utf8, valid_utf8};
use crate::packet::{
    ConnAckPacket, ConnectModel, ConnectPacket, ConnectReturnCode, DisconnectPacket, FixedHeader,
    MqttPacket, PacketModel, PacketType, PingReqPacket, PingRespPacket, PubAckPacket,
    PubCompPacket, PubRecPacket, PubRelPacket, PublishModel, PublishPacket, SubAckPacket,
    SubscribePacket, UnsubAckPacket, UnsubscribePacket, opt_bytes_view, opt_str_view,
    strings_view, sub_topics_view,
};

verus! {

/// Why a byte stream is not a valid MQTT packet.
#[derive(Debug, Clone, Copy, PartialEq, Eq, Structural)]
pub enum DecodeError {
    /// The high nibble of the first byte is 0 or 15.
    InvalidPacketType,
    /// The low nibble of the first byte breaks the rule of its packet kind.
    InvalidFlags,
    /// A fifth remaining-length byte would be needed.
    RemainingLengthTooLong,
    /// The variable header or payload does not have the layout of its kind.
    MalformedBody,
    /// The input ends before the packet does.
    Incomplete,
}

/// What the remaining-length bytes at the start of a sequence say.
#[derive(Debug, Clone, Copy, PartialEq, Eq, Structural)]
pub enum RemainingLength {
    /// The sequence ends inside the integer.
    Incomplete,
    /// The fourth byte has its continuation bit set.
    TooLong,
    /// The value and the number of bytes it takes.
    Value(usize, usize),
}

pub open spec fn low7(x: u8) -> nat {
    (x % 128) as nat
}

/// Reads the remaining-length integer at the start of `b`: at most four
/// bytes, seven bits each, low group first.
pub open spec fn dec_remaining_length(b: Seq<u8>) -> RemainingLength {
    if b.len() < 1 {
        RemainingLength::Incomplete
    } else if b[0] < 128 {
        RemainingLength::Value(b[0] as usize, 1)
    } else if b.len() < 2 {
        RemainingLength::Incomplete
    } else if b[1] < 128 {
        RemainingLength::Value((low7(b[0]) + 128 * (b[1] as nat)) as usize, 2)
    } else if b.len() < 3 {
        RemainingLength::Incomplete
    } else if b[2] < 128 {
        RemainingLength::Value((low7(b[0]) + 128 * low7(b[1]) + 16384 * (b[2] as nat)) as usize, 3)
    } else if b.len() < 4 {
        RemainingLength::Incomplete
    } else if b[3] < 128 {
        RemainingLength::Value(
            (low7(b[0]) + 128 * low7(b[1]) + 16384 * low7(b[2]) + 2097152 * (b[3] as nat)) as usize,
            4,
        )
    } else {
        RemainingLength::TooLong
    }
}

/// A big-endian 16-bit integer at the start of `b`, and what follows it.
pub open spec fn sp_u16(b: Seq<u8>) -> Option<(u16, Seq<u8>)> {
    if b.len() < 2 {
        None
    } else {
        Some((((b[0] as nat) * 256 + (b[1] as nat)) as u16, b.skip(2)))
    }
}

/// A length-prefixed byte array at the start of `b`, and what follows it.
pub open spec fn sp_binary(b: Seq<u8>) -> Option<(Seq<u8>, Seq<u8>)> {
    match sp_u16(b) {
        None => None,
        Some((n, r)) => if r.len() < n {
            None
        } else {
            Some((r.take(n as int), r.skip(n as int)))
        },
    }
}

/// A length-prefixed UTF-8 string at the start of `b`, and what follows it.
pub open spec fn sp_string(b: Seq<u8>) -> Option<(Seq<char>, Seq<u8>)> {
    match sp_binary(b) {
        None => None,
        Some((x, r)) => if valid_utf8(x) {
            Some((decode_utf8(x), r))
        } else {
            None
        },
    }
}

pub open spec fn sp_opt_string(b: Seq<u8>, present: bool) -> Option<(Option<Seq<char>>, Seq<u8>)> {
    if present {
        match sp_string(b) {
            None => None,
            Some((s, r)) => Some((Some(s), r)),
        }
    } else {
        Some((None, b))
    }
}

pub open spec fn sp_opt_binary(b: Seq<u8>, present: bool) -> Option<(Option<Seq<u8>>, Seq<u8>)> {
    if present {
        match sp_binary(b) {
            None => None,
            Some((x, r)) => Some((Some(x), r)),
        }
    } else {
        Some((None, b))
    }
}

/// CONNECT flag bit 0x04: a will topic and message follow the client id.
pub open spec fn will_flag(flags: u8) -> bool {
    (flags / 4) % 2 == 1
}

/// CONNECT flag bit 0x40: a password follows.
pub open spec fn password_flag(flags: u8) -> bool {
    (flags / 64) % 2 == 1
}

/// CONNECT flag bit 0x80: a user name follows.
pub open spec fn username_flag(flags: u8) -> bool {
    flags >= 128
}

/// The CONNECT body `b`: protocol name, level, flags, keep-alive, client id,
/// then will topic, will message, user name and password, each present
/// exactly when its flag is set. A password without a user name, a will
/// qos of 3, and bytes left over are malformed.
pub open spec fn dec_connect(b: Seq<u8>) -> Option<ConnectModel> {
    match sp_string(b) {
        None => None,
        Some((name, r1)) => if r1.len() < 4 {
            None
        } else {
            let flags = r1[1];
            match sp_string(r1.skip(4)) {
                None => None,
                Some((cid, r2)) => if (password_flag(flags) && !username_flag(flags)) || (flags / 8) % 4 == 3 {
                    None
                } else {
                    match sp_opt_string(r2, will_flag(flags)) {
                        None => None,
                        Some((wt, r3)) => match sp_opt_binary(r3, will_flag(flags)) {
                            None => None,
                            Some((wm, r4)) => match sp_opt_string(r4, username_flag(flags)) {
                                None => None,
                                Some((un, r5)) => match sp_opt_binary(r5, password_flag(flags)) {
                                    None => None,
                                    Some((pw, r6)) => if r6.len() == 0 {
                                        Some(
                                            ConnectModel {
                                                protocol_name: name,
                                                protocol_level: r1[0],
                                                connect_flags: flags,
                                                keep_alive: ((r1[2] as nat) * 256 + (
                                                r1[3] as nat)) as u16,
                                                client_id: cid,
                                                will_topic: wt,
                                                will_message: wm,
                                                username: un,
                                                password: pw,
                                            },
                                        )
                                    } else {
                                        None
                                    },
                                },
                            },
                        },
                    }
                },
            }
        },
    }
}

pub open spec fn publish_qos(flags: u8) -> u8 {
    (flags / 2) % 4
}

/// The PUBLISH body `b` under header flags `flags`: topic, a packet id when
/// qos > 0, and the rest as payload. Flags with qos 3, or dup without qos,
/// are malformed.
pub open spec fn dec_publish(flags: u8, b: Seq<u8>) -> Option<PublishModel> {
    if !flags_valid(PacketType::Publish, flags) {
        None
    } else {
    match sp_string(b) {
        None => None,
        Some((topic, r)) => if publish_qos(flags) > 0 {
            match sp_u16(r) {
                None => None,
                Some((id, payload)) => Some(
                    PublishModel {
                        dup: flags >= 8,
                        qos: publish_qos(flags),
                        retain: flags % 2 == 1,
                        topic,
                        packet_id: Some(id),
                        payload,
                    },
                ),
            }
        } else {
            Some(
                PublishModel {
                    dup: flags >= 8,
                    qos: publish_qos(flags),
                    retain: flags % 2 == 1,
                    topic,
                    packet_id: None,
                    payload: r,
                },
            )
        },
    }
    }
}

/// A body that is exactly one packet id.
pub open spec fn dec_id_only(b: Seq<u8>) -> Option<u16> {
    if b.len() == 2 {
        Some(((b[0] as nat) * 256 + (b[1] as nat)) as u16)
    } else {
        None
    }
}

/// The (filter, qos) list of a SUBSCRIBE, up to the end of `b`.
pub open spec fn dec_sub_topics(b: Seq<u8>) -> Option<Seq<(Seq<char>, u8)>>
    decreases b.len(),
{
    if b.len() == 0 {
        Some(Seq::empty())
    } else {
        match sp_string(b) {
            None => None,
            Some((t, r)) => if r.len() < 1 || r.len() >= b.len() {
                None
            } else {
                match dec_sub_topics(r.skip(1)) {
                    None => None,
                    Some(rest) => Some(seq![(t, r[0])] + rest),
                }
            },
        }
    }
}

/// The filter list of an UNSUBSCRIBE, up to the end of `b`.
pub open spec fn dec_unsub_topics(b: Seq<u8>) -> Option<Seq<Seq<char>>>
    decreases b.len(),
{
    if b.len() == 0 {
        Some(Seq::empty())
    } else {
        match sp_string(b) {
            None => None,
            Some((t, r)) => if r.len() >= b.len() {
                None
            } else {
                match dec_unsub_topics(r) {
                    None => None,
                    Some(rest) => Some(seq![t] + rest),
                }
            },
        }
    }
}

/// The body `b` of a packet of kind `t` with header flags `flags`.
pub open spec fn dec_body(t: PacketType, flags: u8, b: Seq<u8>) -> Option<PacketModel> {
    match t {
        PacketType::Connect => match dec_connect(b) {
            Some(c) => Some(PacketModel::Connect(c)),
            None => None,
        },
        PacketType::ConnAck => if b.len() == 2 && b[0] <= 1 && ConnectReturnCode::spec_from_code(
            b[1],
        ).is_some() {
            Some(
                PacketModel::ConnAck {
                    session_present: b[0] == 1,
                    return_code: ConnectReturnCode::spec_from_code(b[1]).unwrap(),
                },
            )
        } else {
            None
        },
        PacketType::Publish => match dec_publish(flags, b) {
            Some(m) => Some(PacketModel::Publish(m)),
            None => None,
        },
        PacketType::PubAck => match dec_id_only(b) {
            Some(id) => Some(PacketModel::PubAck(id)),
            None => None,
        },
        PacketType::PubRec => match dec_id_only(b) {
            Some(id) => Some(PacketModel::PubRec(id)),
            None => None,
        },
        PacketType::PubRel => match dec_id_only(b) {
            Some(id) => Some(PacketModel::PubRel(id)),
            None => None,
        },
        PacketType::PubComp => match dec_id_only(b) {
            Some(id) => Some(PacketModel::PubComp(id)),
            None => None,
        },
        PacketType::Subscribe => match sp_u16(b) {
            None => None,
            Some((id, r)) => match dec_sub_topics(r) {
                None => None,
                Some(ts) => Some(PacketModel::Subscribe { packet_id: id, topics: ts }),
            },
        },
        PacketType::SubAck => match sp_u16(b) {
            None => None,
            Some((id, r)) => Some(PacketModel::SubAck { packet_id: id, return_codes: r }),
        },
        PacketType::Unsubscribe => match sp_u16(b) {
            None => None,
            Some((id, r)) => match dec_unsub_topics(r) {
                None => None,
                Some(ts) => Some(PacketModel::Unsubscribe { packet_id: id, topics: ts }),
            },
        },
        PacketType::UnsubAck => match dec_id_only(b) {
            Some(id) => Some(PacketModel::UnsubAck(id)),
            None => None,
        },
        PacketType::PingReq => if b.len() == 0 {
            Some(PacketModel::PingReq)
        } else {
            None
        },
        PacketType::PingResp => if b.len() == 0 {
            Some(PacketModel::PingResp)
        } else {
            None
        },
        PacketType::Disconnect => if b.len() == 0 {
            Some(PacketModel::Disconnect)
        } else {
            None
        },
    }
}

/// The flag rule of each kind: `dup|qos|qos|retain` for PUBLISH with qos 3
/// and dup without qos refused, `0010` for PUBREL, SUBSCRIBE and
/// UNSUBSCRIBE, `0000` for the others.
pub open spec fn flags_valid(t: PacketType, flags: u8) -> bool {
    match t {
        PacketType::Publish => publish_qos(flags) != 3 && !(flags >= 8 && publish_qos(flags) == 0),
        PacketType::PubRel => flags == 2,
        PacketType::Subscribe => flags == 2,
        PacketType::Unsubscribe => flags == 2,
        _ => flags == 0,
    }
}

/// The outcome of decoding at the start of a buffer.
pub enum DecodedModel {
    /// At least this many more bytes are needed.
    Need(nat),
    /// A packet, and the number of bytes its wire form takes.
    Packet(PacketModel, nat),
    Error(DecodeError),
}

/// The fixed header at the start of `b`, with its length in bytes: the kind
/// must be known, the flags must follow the kind's rule, and the remaining
/// length must take at most four bytes.
pub open spec fn dec_fixed_header(b: Seq<u8>) -> Result<(FixedHeader, nat), DecodeError> {
    if b.len() == 0 {
        Err(DecodeError::Incomplete)
    } else {
        match PacketType::spec_from_code(b[0] / 16) {
            None => Err(DecodeError::InvalidPacketType),
            Some(t) => if !flags_valid(t, b[0] % 16) {
                Err(DecodeError::InvalidFlags)
            } else {
                match dec_remaining_length(b.skip(1)) {
                    RemainingLength::Incomplete => Err(DecodeError::Incomplete),
                    RemainingLength::TooLong => Err(DecodeError::RemainingLengthTooLong),
                    RemainingLength::Value(n, k) => Ok(
                        (
                            FixedHeader { packet_type: t, flags: b[0] % 16, remaining_length: n },
                            (1 + k) as nat,
                        ),
                    ),
                }
            },
        }
    }
}

/// Streaming decode of the bytes `b` received so far: the first packet, how
/// many more bytes it needs, or why the stream is malformed. Only the bytes
/// of the declared remaining length are read.
pub open spec fn decode_spec(b: Seq<u8>) -> DecodedModel {
    match dec_fixed_header(b) {
        Err(DecodeError::Incomplete) => DecodedModel::Need(1),
        Err(e) => DecodedModel::Error(e),
        Ok((h, k)) => {
            let total = (k + h.remaining_length) as nat;
            if b.len() < total {
                DecodedModel::Need((total - b.len()) as nat)
            } else {
                match dec_body(h.packet_type, h.flags, b.subrange(k as int, total as int)) {
                    None => DecodedModel::Error(DecodeError::MalformedBody),
                    Some(m) => DecodedModel::Packet(m, total),
                }
            }
        },
    }
}

/// The outcome of `try_decode`.
#[derive(Debug, Clone)]
pub enum Decoded {
    /// At least this many more bytes are needed.
    Need(usize),
    /// A packet, and the number of bytes consumed.
    Packet(MqttPacket, usize),
    Error(DecodeError),
}

impl View for Decoded {
    type V = DecodedModel;

    open spec fn view(&self) -> DecodedModel {
        match self {
            Decoded::Need(n) => DecodedModel::Need(*n as nat),
            Decoded::Packet(p, n) => DecodedModel::Packet(p@, *n as nat),
            Decoded::Error(e) => DecodedModel::Error(*e),
        }
    }
}

/// Relies on `String::from_utf8`: it accepts exactly the byte vectors that
/// are valid UTF-8, and the string it returns holds those same bytes.
#[verifier::external_body]
fn string_from_utf8(bytes: Vec<u8>) -> (r: Option<String>)
    ensures
        r is Some <==> valid_utf8(bytes@),
        r matches Some(s) ==> encode_utf8(s@) == bytes@,
{
    String::from_utf8(bytes).ok()
}

fn read_u16(b: &[u8], pos: usize) -> (r: Option<(u16, usize)>)
    requires
        pos <= b@.len(),
    ensures
        match sp_u16(b@.skip(pos as int)) {
            None => r is None,
            Some((v, rest)) => r matches Some((w, p)) && w == v && p <= b@.len() && rest == b@.skip(
                p as int,
            ),
        },
{
    if b.len() - pos < 2 {
        return None;
    }
    let v: u16 = (b[pos] as u16) * 256 + (b[pos + 1] as u16);
    assert(b@.skip(pos as int).skip(2) =~= b@.skip(pos + 2));
    Some((v, pos + 2))
}

fn read_binary(b: &[u8], pos: usize) -> (r: Option<(Vec<u8>, usize)>)
    requires
        pos <= b@.len(),
    ensures
        match sp_binary(b@.skip(pos as int)) {
            None => r is None,
            Some((x, rest)) => r matches Some((v, p)) && v@ == x && p <= b@.len() && rest
                == b@.skip(p as int),
        },
{
    let (n, p) = match read_u16(b, pos) {
        Some(x) => x,
        None => return None,
    };
    if b.len() - p < n as usize {
        return None;
    }
    let end = p + n as usize;
    let v = slice_to_vec(slice_subrange(b, p, end));
    assert(b@.skip(p as int).take(n as int) =~= b@.subrange(p as int, end as int));
    assert(b@.skip(p as int).skip(n as int) =~= b@.skip(end as int));
    Some((v, end))
}

fn read_string(b: &[u8], pos: usize) -> (r: Option<(String, usize)>)
    requires
        pos <= b@.len(),
    ensures
        match sp_string(b@.skip(pos as int)) {
            None => r is None,
            Some((x, rest)) => r matches Some((s, p)) && s@ == x && p <= b@.len() && rest
                == b@.skip(p as int),
        },
{
    let (v, p) = match read_binary(b, pos) {
        Some(x) => x,
        None => return None,
    };
    let ghost bytes = v@;
    match string_from_utf8(v) {
        Some(s) => {
            proof {
                encode_utf8_decode_utf8(s@);
            }
            Some((s, p))
        },
        None => None,
    }
}

fn read_opt_string(b: &[u8], pos: usize, present: bool) -> (r: Option<(Option<String>, usize)>)
    requires
        pos <= b@.len(),
    ensures
        match sp_opt_string(b@.skip(pos as int), present) {
            None => r is None,
            Some((x, rest)) => r matches Some((s, p)) && opt_str_view(s) == x && p <= b@.len()
                && rest == b@.skip(p as int),
        },
{
    if present {
        match read_string(b, pos) {
            Some((s, p)) => Some((Some(s), p)),
            None => None,
        }
    } else {
        Some((None, pos))
    }
}

fn read_opt_binary(b: &[u8], pos: usize, present: bool) -> (r: Option<(Option<Vec<u8>>, usize)>)
    requires
        pos <= b@.len(),
    ensures
        match sp_opt_binary(b@.skip(pos as int), present) {
            None => r is None,
            Some((x, rest)) => r matches Some((v, p)) && opt_bytes_view(v) == x && p <= b@.len()
                && rest == b@.skip(p as int),
        },
{
    if present {
        match read_binary(b, pos) {
            Some((v, p)) => Some((Some(v), p)),
            None => None,
        }
    } else {
        Some((None, pos))
    }
}

/// Decodes a CONNECT body.
pub fn parse_connect(b: &[u8]) -> (r: Result<ConnectPacket, DecodeError>)
    ensures
        match dec_connect(b@) {
            None => r == Err::<ConnectPacket, DecodeError>(DecodeError::MalformedBody),
            Some(m) => r matches Ok(c) && c@ == m,
        },
{
    assert(b@.skip(0) =~= b@);
    let (protocol_name, at1) = match read_string(b, 0) {
        Some(x) => x,
        None => return Err(DecodeError::MalformedBody),
    };
    if b.len() - at1 < 4 {
        return Err(DecodeError::MalformedBody);
    }
    let protocol_level = b[at1];
    let connect_flags = b[at1 + 1];
    let keep_alive: u16 = (b[at1 + 2] as u16) * 256 + (b[at1 + 3] as u16);
    assert(b@.skip(at1 as int).skip(4) =~= b@.skip(at1 + 4));
    let (client_id, at2) = match read_string(b, at1 + 4) {
        Some(x) => x,
        None => return Err(DecodeError::MalformedBody),
    };
    let will = connect_flags / 4 % 2 == 1;
    let pass = connect_flags / 64 % 2 == 1;
    let user = connect_flags >= 128;
    if (pass && !user) || connect_flags / 8 % 4 == 3 {
        return Err(DecodeError::MalformedBody);
    }
    let (will_topic, at3) = match read_opt_string(b, at2, will) {
        Some(x) => x,
        None => return Err(DecodeError::MalformedBody),
    };
    let (will_message, at4) = match read_opt_binary(b, at3, will) {
        Some(x) => x,
        None => return Err(DecodeError::MalformedBody),
    };
    let (username, at5) = match read_opt_string(b, at4, user) {
        Some(x) => x,
        None => return Err(DecodeError::MalformedBody),
    };
    let (password, at6) = match read_opt_binary(b, at5, pass) {
        Some(x) => x,
        None => return Err(DecodeError::MalformedBody),
    };
    if at6 != b.len() {
        return Err(DecodeError::MalformedBody);
    }
    Ok(
        ConnectPacket {
            protocol_name,
            protocol_level,
            connect_flags,
            keep_alive,
            client_id,
            will_topic,
            will_message,
            username,
            password,
        },
    )
}

/// Decodes a PUBLISH body under the header flags `flags`.
pub fn parse_publish(b: &[u8], flags: u8) -> (r: Result<PublishPacket, DecodeError>)
    ensures
        match dec_publish(flags, b@) {
            None => r == Err::<PublishPacket, DecodeError>(DecodeError::MalformedBody),
            Some(m) => r matches Ok(p) && p@ == m,
        },
        !flags_valid(PacketType::Publish, flags) ==> r is Err,
        r matches Ok(p) ==> p.qos <= 2 && (p.packet_id is Some <==> p.qos > 0),
{
    if !flags_valid_exec(PacketType::Publish, flags) {
        return Err(DecodeError::MalformedBody);
    }
    assert(b@.skip(0) =~= b@);
    let (topic_name, at1) = match read_string(b, 0) {
        Some(x) => x,
        None => return Err(DecodeError::MalformedBody),
    };
    let qos = flags / 2 % 4;
    let mut packet_id: Option<u16> = None;
    let mut start = at1;
    if qos > 0 {
        let (id, at2) = match read_u16(b, at1) {
            Some(x) => x,
            None => return Err(DecodeError::MalformedBody),
        };
        packet_id = Some(id);
        start = at2;
    }
    let payload = slice_to_vec(slice_subrange(b, start, b.len()));
    assert(payload@ =~= b@.skip(start as int));
    Ok(PublishPacket { dup: flags >= 8, qos, retain: flags % 2 == 1, topic_name, packet_id, payload })
}

/// Decodes a body that is exactly one packet id.
fn parse_id_only(b: &[u8]) -> (r: Result<u16, DecodeError>)
    ensures
        match dec_id_only(b@) {
            None => r == Err::<u16, DecodeError>(DecodeError::MalformedBody),
            Some(id) => r == Ok::<u16, DecodeError>(id),
        },
{
    if b.len() != 2 {
        return Err(DecodeError::MalformedBody);
    }
    Ok((b[0] as u16) * 256 + (b[1] as u16))
}

/// Decodes a SUBSCRIBE body.
pub fn parse_subscribe(b: &[u8]) -> (r: Result<SubscribePacket, DecodeError>)
    ensures
        match dec_body(PacketType::Subscribe, 2, b@) {
            None => r == Err::<SubscribePacket, DecodeError>(DecodeError::MalformedBody),
            Some(m) => r matches Ok(p) && (MqttPacket::Subscribe(p))@ == m,
        },
{
    assert(b@.skip(0) =~= b@);
    let (packet_id, at0) = match read_u16(b, 0) {
        Some(x) => x,
        None => return Err(DecodeError::MalformedBody),
    };
    let ghost all = b@.skip(at0 as int);
    let mut topics: Vec<(String, u8)> = Vec::new();
    let mut pos = at0;
    while pos < b.len()
        invariant
            at0 <= pos <= b@.len(),
            all == b@.skip(at0 as int),
            sp_u16(b@) == Some((packet_id, all)),
            dec_sub_topics(all) == match dec_sub_topics(b@.skip(pos as int)) {
                None => None,
                Some(rest) => Some(sub_topics_view(topics@) + rest),
            },
        decreases b@.len() - pos,
    {
        let ghost here = b@.skip(pos as int);
        let (t, at1) = match read_string(b, pos) {
            Some(x) => x,
            None => {
                assert(dec_sub_topics(here) is None);
                return Err(DecodeError::MalformedBody);
            },
        };
        if at1 >= b.len() {
            assert(dec_sub_topics(here) is None);
            return Err(DecodeError::MalformedBody);
        }
        let q = b[at1];
        proof {
            assert(b@.skip(at1 as int).skip(1) =~= b@.skip(at1 + 1));
            assert(sub_topics_view(topics@.push((t, q))) =~= sub_topics_view(topics@) + seq![(t@, q)]);
        }
        let ghost old_topics = topics@;
        topics.push((t, q));
        pos = at1 + 1;
        proof {
            match dec_sub_topics(b@.skip(pos as int)) {
                None => {},
                Some(rest) => {
                    assert(sub_topics_view(old_topics) + (seq![(t@, q)] + rest) =~= sub_topics_view(topics@) + rest);
                },
            }
        }
    }
    assert(b@.skip(pos as int) =~= Seq::<u8>::empty());
    assert(sub_topics_view(topics@) + Seq::<(Seq<char>, u8)>::empty() =~= sub_topics_view(topics@));
    Ok(SubscribePacket { packet_id, topics })
}

/// Decodes an UNSUBSCRIBE body.
pub fn parse_unsubscribe(b: &[u8]) -> (r: Result<UnsubscribePacket, DecodeError>)
    ensures
        match dec_body(PacketType::Unsubscribe, 2, b@) {
            None => r == Err::<UnsubscribePacket, DecodeError>(DecodeError::MalformedBody),
            Some(m) => r matches Ok(p) && (MqttPacket::Unsubscribe(p))@ == m,
        },
{
    assert(b@.skip(0) =~= b@);
    let (packet_id, at0) = match read_u16(b, 0) {
        Some(x) => x,
        None => return Err(DecodeError::MalformedBody),
    };
    let ghost all = b@.skip(at0 as int);
    let mut topics: Vec<String> = Vec::new();
    let mut pos = at0;
    while pos < b.len()
        invariant
            at0 <= pos <= b@.len(),
            all == b@.skip(at0 as int),
            sp_u16(b@) == Some((packet_id, all)),
            dec_unsub_topics(all) == match dec_unsub_topics(b@.skip(pos as int)) {
                None => None,
                Some(rest) => Some(strings_view(topics@) + rest),
            },
        decreases b@.len() - pos,
    {
        let ghost here = b@.skip(pos as int);
        let (t, at1) = match read_string(b, pos) {
            Some(x) => x,
            None => {
                assert(dec_unsub_topics(here) is None);
                return Err(DecodeError::MalformedBody);
            },
        };
        proof {
            assert(strings_view(topics@.push(t)) =~= strings_view(topics@) + seq![t@]);
        }
        let ghost old_topics = topics@;
        topics.push(t);
        pos = at1;
        proof {
            match dec_unsub_topics(b@.skip(pos as int)) {
                None => {},
                Some(rest) => {
                    assert(strings_view(old_topics) + (seq![t@] + rest) =~= strings_view(topics@) + rest);
                },
            }
        }
    }
    assert(b@.skip(pos as int) =~= Seq::<u8>::empty());
    assert(strings_view(topics@) + Seq::<Seq<char>>::empty() =~= strings_view(topics@));
    Ok(UnsubscribePacket { packet_id, topics })
}

/// Decodes the body `b` of a packet of kind `t` with header flags `flags`.
pub fn parse_body(t: PacketType, flags: u8, b: &[u8]) -> (r: Result<MqttPacket, DecodeError>)
    ensures
        match dec_body(t, flags, b@) {
            None => r == Err::<MqttPacket, DecodeError>(DecodeError::MalformedBody),
            Some(m) => r matches Ok(p) && p@ == m,
        },
{
    match t {
        PacketType::Connect => match parse_connect(b) {
            Ok(c) => Ok(MqttPacket::Connect(c)),
            Err(e) => Err(e),
        },
        PacketType::ConnAck => {
            if b.len() != 2 || b[0] > 1 {
                return Err(DecodeError::MalformedBody);
            }
            match ConnectReturnCode::from_u8(b[1]) {
                Some(c) => Ok(MqttPacket::ConnAck(ConnAckPacket { session_present: b[0] == 1, return_code: c })),
                None => Err(DecodeError::MalformedBody),
            }
        },
        PacketType::Publish => match parse_publish(b, flags) {
            Ok(p) => Ok(MqttPacket::Publish(p)),
            Err(e) => Err(e),
        },
        PacketType::PubAck => match parse_id_only(b) {
            Ok(id) => Ok(MqttPacket::PubAck(PubAckPacket { packet_id: id })),
            Err(e) => Err(e),
        },
        PacketType::PubRec => match parse_id_only(b) {
            Ok(id) => Ok(MqttPacket::PubRec(PubRecPacket { packet_id: id })),
            Err(e) => Err(e),
        },
        PacketType::PubRel => match parse_id_only(b) {
            Ok(id) => Ok(MqttPacket::PubRel(PubRelPacket { packet_id: id })),
            Err(e) => Err(e),
        },
        PacketType::PubComp => match parse_id_only(b) {
            Ok(id) => Ok(MqttPacket::PubComp(PubCompPacket { packet_id: id })),
            Err(e) => Err(e),
        },
        PacketType::Subscribe => match parse_subscribe(b) {
            Ok(p) => Ok(MqttPacket::Subscribe(p)),
            Err(e) => Err(e),
        },
        PacketType::SubAck => {
            assert(b@.skip(0) =~= b@);
            match read_u16(b, 0) {
                Some((id, p)) => {
                    let codes = slice_to_vec(slice_subrange(b, p, b.len()));
                    assert(codes@ =~= b@.skip(p as int));
                    Ok(MqttPacket::SubAck(SubAckPacket { packet_id: id, return_codes: codes }))
                },
                None => Err(DecodeError::MalformedBody),
            }
        },
        PacketType::Unsubscribe => match parse_unsubscribe(b) {
            Ok(p) => Ok(MqttPacket::Unsubscribe(p)),
            Err(e) => Err(e),
        },
        PacketType::UnsubAck => match parse_id_only(b) {
            Ok(id) => Ok(MqttPacket::UnsubAck(UnsubAckPacket { packet_id: id })),
            Err(e) => Err(e),
        },
        PacketType::PingReq => if b.len() == 0 {
            Ok(MqttPacket::PingReq(PingReqPacket))
        } else {
            Err(DecodeError::MalformedBody)
        },
        PacketType::PingResp => if b.len() == 0 {
            Ok(MqttPacket::PingResp(PingRespPacket))
        } else {
            Err(DecodeError::MalformedBody)
        },
        PacketType::Disconnect => if b.len() == 0 {
            Ok(MqttPacket::Disconnect(DisconnectPacket))
        } else {
            Err(DecodeError::MalformedBody)
        },
    }
}

/// Reads the remaining-length integer that starts at `pos`.
pub fn parse_remaining_length(b: &[u8], pos: usize) -> (r: RemainingLength)
    requires
        pos <= b@.len(),
    ensures
        r == dec_remaining_length(b@.skip(pos as int)),
        r matches RemainingLength::Value(n, k) ==> n <= crate::codec::MAX_REMAINING_LENGTH && 1
            <= k <= 4,
{
    let ghost s = b@.skip(pos as int);
    let avail = b.len() - pos;
    if avail < 1 {
        return RemainingLength::Incomplete;
    }
    let b0 = b[pos];
    if b0 < 128 {
        return RemainingLength::Value(b0 as usize, 1);
    }
    if avail < 2 {
        return RemainingLength::Incomplete;
    }
    let b1 = b[pos + 1];
    let v0 = (b0 % 128) as usize;
    if b1 < 128 {
        return RemainingLength::Value(v0 + 128 * (b1 as usize), 2);
    }
    if avail < 3 {
        return RemainingLength::Incomplete;
    }
    let b2 = b[pos + 2];
    let v1 = v0 + 128 * ((b1 % 128) as usize);
    if b2 < 128 {
        return RemainingLength::Value(v1 + 16384 * (b2 as usize), 3);
    }
    if avail < 4 {
        return RemainingLength::Incomplete;
    }
    let b3 = b[pos + 3];
    let v2 = v1 + 16384 * ((b2 % 128) as usize);
    if b3 < 128 {
        return RemainingLength::Value(v2 + 2097152 * (b3 as usize), 4);
    }
    RemainingLength::TooLong
}

/// Whether `flags` follows the flag rule of kind `t`.
pub fn flags_valid_exec(t: PacketType, flags: u8) -> (r: bool)
    ensures
        r == flags_valid(t, flags),
{
    match t {
        PacketType::Publish => {
            let qos = flags / 2 % 4;
            qos != 3 && !(flags >= 8 && qos == 0)
        },
        PacketType::PubRel => flags == 2,
        PacketType::Subscribe => flags == 2,
        PacketType::Unsubscribe => flags == 2,
        _ => flags == 0,
    }
}

/// Reads the fixed header at the start of `input`; the second value is its
/// length in bytes.
pub fn parse_fixed_header(input: &[u8]) -> (r: Result<(FixedHeader, usize), DecodeError>)
    ensures
        match dec_fixed_header(input@) {
            Ok((h, k)) => r matches Ok((h2, k2)) && h2 == h && k2 == k,
            Err(e) => r == Err::<(FixedHeader, usize), DecodeError>(e),
        },
        r matches Ok((h, k)) ==> h.remaining_length <= crate::codec::MAX_REMAINING_LENGTH && 2 <= k
            <= 5,
{
    if input.len() == 0 {
        return Err(DecodeError::Incomplete);
    }
    let first = input[0];
    let t = match PacketType::from_u8(first / 16) {
        Some(t) => t,
        None => return Err(DecodeError::InvalidPacketType),
    };
    let flags = first % 16;
    if !flags_valid_exec(t, flags) {
        return Err(DecodeError::InvalidFlags);
    }
    match parse_remaining_length(input, 1) {
        RemainingLength::Incomplete => Err(DecodeError::Incomplete),
        RemainingLength::TooLong => Err(DecodeError::RemainingLengthTooLong),
        RemainingLength::Value(n, k) => Ok(
            (FixedHeader { packet_type: t, flags, remaining_length: n }, 1 + k),
        ),
    }
}

/// The fixed header at the start of `input`, without its length.
pub fn parse_fixed_header_anyhow(input: &[u8]) -> (r: Result<FixedHeader, DecodeError>)
    ensures
        match dec_fixed_header(input@) {
            Ok((h, k)) => r == Ok::<FixedHeader, DecodeError>(h),
            Err(e) => r == Err::<FixedHeader, DecodeError>(e),
        },
{
    match parse_fixed_header(input) {
        Ok((h, _)) => Ok(h),
        Err(e) => Err(e),
    }
}

/// Streaming decode: the first packet in `buf` and the bytes it takes, how
/// many more bytes are needed, or why the stream is malformed.
pub fn try_decode(buf: &[u8]) -> (r: Decoded)
    ensures
        r@ == decode_spec(buf@),
{
    let (h, k) = match parse_fixed_header(buf) {
        Ok(x) => x,
        Err(DecodeError::Incomplete) => return Decoded::Need(1),
        Err(e) => return Decoded::Error(e),
    };
    let total = k + h.remaining_length;
    if buf.len() < total {
        return Decoded::Need(total - buf.len());
    }
    let body = slice_subrange(buf, k, total);
    match parse_body(h.packet_type, h.flags, body) {
        Ok(p) => Decoded::Packet(p, total),
        Err(e) => Decoded::Error(e),
    }
}

/// Decodes one complete packet at the start of `input`; the second value is
/// the number of bytes it takes. A packet cut short is `Incomplete`.
pub fn parse_packet(input: &[u8]) -> (r: Result<(MqttPacket, usize), DecodeError>)
    ensures
        match decode_spec(input@) {
            DecodedModel::Need(_) => r == Err::<(MqttPacket, usize), DecodeError>(
                DecodeError::Incomplete,
            ),
            DecodedModel::Packet(m, n) => r matches Ok((p, k)) && p@ == m && k == n,
            DecodedModel::Error(e) => r == Err::<(MqttPacket, usize), DecodeError>(e),
        },
{
    match try_decode(input) {
        Decoded::Need(_) => Err(DecodeError::Incomplete),
        Decoded::Packet(p, n) => Ok((p, n)),
        Decoded::Error(e) => Err(e),
    }
}

/// Decodes one complete packet at the start of `input`.
pub fn parse_packet_anyhow(input: &[u8]) -> (r: Result<MqttPacket, DecodeError>)
    ensures
        match decode_spec(input@) {
            DecodedModel::Need(_) => r == Err::<MqttPacket, DecodeError>(DecodeError::Incomplete),
            DecodedModel::Packet(m, n) => r matches Ok(p) && p@ == m,
            DecodedModel::Error(e) => r == Err::<MqttPacket, DecodeError>(e),
        },
{
    match parse_packet(input) {
        Ok((p, _)) => Ok(p),
        Err(e) => Err(e),
    }
}

/// Removes the first `n` bytes of `buffer`.
pub(crate) fn consume(buffer: &mut Vec<u8>, n: usize)
    requires
        n <= old(buffer)@.len(),
    ensures
        final(buffer)@ == old(buffer)@.skip(n as int),
{
    let rest = slice_to_vec(slice_subrange(buffer.as_slice(), n, buffer.len()));
    *buffer = rest;
}

/// Splits the first complete frame (fixed header and the bytes its remaining
/// length declares) off the front of `buf`. Without a complete, valid header
/// and all its bytes, `buf` stays as it is.
pub fn read_from_bytes_mut(buf: &mut Vec<u8>) -> (r: Option<Vec<u8>>)
    ensures
        match dec_fixed_header(old(buf)@) {
            Ok((h, k)) => if old(buf)@.len() >= k + h.remaining_length {
                r matches Some(f) && f@ == old(buf)@.take(k + h.remaining_length) && final(buf)@
                    == old(buf)@.skip(k + h.remaining_length)
            } else {
                r is None && final(buf)@ == old(buf)@
            },
            Err(_) => r is None && final(buf)@ == old(buf)@,
        },
{
    let (h, k) = match parse_fixed_header(buf.as_slice()) {
        Ok(x) => x,
        Err(_) => return None,
    };
    let total = k + h.remaining_length;
    if buf.len() < total {
        return None;
    }
    let frame = slice_to_vec(slice_subrange(buf.as_slice(), 0, total));
    consume(buf, total);
    Some(frame)
}

impl MqttPacket {
    /// Decodes the first packet in `buffer` and removes its bytes. When more
    /// bytes are needed the result is `Incomplete`; on any error `buffer`
    /// stays as it is.
    pub fn read(buffer: &mut Vec<u8>) -> (r: Result<MqttPacket, DecodeError>)
        ensures
            match decode_spec(old(buffer)@) {
                DecodedModel::Need(_) => r == Err::<MqttPacket, DecodeError>(
                    DecodeError::Incomplete,
                ) && final(buffer)@ == old(buffer)@,
                DecodedModel::Packet(m, n) => r matches Ok(p) && p@ == m && final(buffer)@ == old(
                    buffer,
                )@.skip(n as int),
                DecodedModel::Error(e) => r == Err::<MqttPacket, DecodeError>(e) && final(buffer)@
                    == old(buffer)@,
            },
    {
        match try_decode(buffer.as_slice()) {
            Decoded::Need(_) => Err(DecodeError::Incomplete),
            Decoded::Packet(p, n) => {
                consume(buffer, n);
                Ok(p)
            },
            Decoded::Error(e) => Err(e),
        }
    }
}

/// Decodes a CONNECT body.
pub fn parse_connect_anyhow(input: &[u8]) -> (r: Result<ConnectPacket, DecodeError>)
    ensures
        match dec_connect(input@) {
            None => r == Err::<ConnectPacket, DecodeError>(DecodeError::MalformedBody),
            Some(m) => r matches Ok(c) && c@ == m,
        },
{
    parse_connect(input)
}

/// Decodes a PUBLISH body under the header flags `flags`.
pub fn parse_publish_anyhow(input: &[u8], flags: u8) -> (r: Result<PublishPacket, DecodeError>)
    ensures
        match dec_publish(flags, input@) {
            None => r == Err::<PublishPacket, DecodeError>(DecodeError::MalformedBody),
            Some(m) => r matches Ok(p) && p@ == m,
        },
        !flags_valid(PacketType::Publish, flags) ==> r is Err,
        r matches Ok(p) ==> p.qos <= 2 && (p.packet_id is Some <==> p.qos > 0),
{
    parse_publish(input, flags)
}

/// Decodes a SUBSCRIBE body.
pub fn parse_subscribe_anyhow(input: &[u8]) -> (r: Result<SubscribePacket, DecodeError>)
    ensures
        match dec_body(PacketType::Subscribe, 2, input@) {
            None => r == Err::<SubscribePacket, DecodeError>(DecodeError::MalformedBody),
            Some(m) => r matches Ok(p) && (MqttPacket::Subscribe(p))@ == m,
        },
{
    parse_subscribe(input)
}

/// Decodes a length-prefixed UTF-8 string at the start of `input`; the
/// second value is the number of bytes it takes.
pub fn parse_mqtt_string(input: &[u8]) -> (r: Result<(String, usize), DecodeError>)
    ensures
        match sp_string(input@) {
            None => r == Err::<(String, usize), DecodeError>(DecodeError::MalformedBody),
            Some((x, rest)) => r matches Ok((s, n)) && s@ == x && rest == input@.skip(n as int),
        },
{
    assert(input@.skip(0) =~= input@);
    match read_string(input, 0) {
        Some(x) => Ok(x),
        None => Err(DecodeError::MalformedBody),
    }
}

/// Decodes a length-prefixed byte array at the start of `input`; the
/// second value is the number of bytes it takes.
pub fn parse_mqtt_binary(input: &[u8]) -> (r: Result<(Vec<u8>, usize), DecodeError>)
    ensures
        match sp_binary(input@) {
            None => r == Err::<(Vec<u8>, usize), DecodeError>(DecodeError::MalformedBody),
            Some((x, rest)) => r matches Ok((v, n)) && v@ == x && rest == input@.skip(n as int),
        },
{
    assert(input@.skip(0) =~= input@);
    match read_binary(input, 0) {
        Some(x) => Ok(x),
        None => Err(DecodeError::MalformedBody),
    }
}

/// Decodes a CONNACK body.
pub fn parse_connack(b: &[u8]) -> (r: Result<ConnAckPacket, DecodeError>)
    ensures
        match dec_body(PacketType::ConnAck, 0, b@) {
            None => r == Err::<ConnAckPacket, DecodeError>(DecodeError::MalformedBody),
            Some(m) => r matches Ok(p) && (MqttPacket::ConnAck(p))@ == m,
        },
{
    match parse_body(PacketType::ConnAck, 0, b) {
        Ok(MqttPacket::ConnAck(p)) => Ok(p),
        _ => Err(DecodeError::MalformedBody),
    }
}

/// Decodes a PUBACK body.
pub fn parse_puback(b: &[u8]) -> (r: Result<PubAckPacket, DecodeError>)
    ensures
        match dec_id_only(b@) {
            None => r == Err::<PubAckPacket, DecodeError>(DecodeError::MalformedBody),
            Some(id) => r == Ok::<PubAckPacket, DecodeError>(PubAckPacket { packet_id: id }),
        },
{
    match parse_id_only(b) {
        Ok(id) => Ok(PubAckPacket { packet_id: id }),
        Err(e) => Err(e),
    }
}

/// Decodes a PUBREC body.
pub fn parse_pubrec(b: &[u8]) -> (r: Result<PubRecPacket, DecodeError>)
    ensures
        match dec_id_only(b@) {
            None => r == Err::<PubRecPacket, DecodeError>(DecodeError::MalformedBody),
            Some(id) => r == Ok::<PubRecPacket, DecodeError>(PubRecPacket { packet_id: id }),
        },
{
    match parse_id_only(b) {
        Ok(id) => Ok(PubRecPacket { packet_id: id }),
        Err(e) => Err(e),
    }
}

/// Decodes a PUBREL body.
pub fn parse_pubrel(b: &[u8]) -> (r: Result<PubRelPacket, DecodeError>)
    ensures
        match dec_id_only(b@) {
            None => r == Err::<PubRelPacket, DecodeError>(DecodeError::MalformedBody),
            Some(id) => r == Ok::<PubRelPacket, DecodeError>(PubRelPacket { packet_id: id }),
        },
{
    match parse_id_only(b) {
        Ok(id) => Ok(PubRelPacket { packet_id: id }),
        Err(e) => Err(e),
    }
}

/// Decodes a PUBCOMP body.
pub fn parse_pubcomp(b: &[u8]) -> (r: Result<PubCompPacket, DecodeError>)
    ensures
        match dec_id_only(b@) {
            None => r == Err::<PubCompPacket, DecodeError>(DecodeError::MalformedBody),
            Some(id) => r == Ok::<PubCompPacket, DecodeError>(PubCompPacket { packet_id: id }),
        },
{
    match parse_id_only(b) {
        Ok(id) => Ok(PubCompPacket { packet_id: id }),
        Err(e) => Err(e),
    }
}

/// Decodes an UNSUBACK body.
pub fn parse_unsuback(b: &[u8]) -> (r: Result<UnsubAckPacket, DecodeError>)
    ensures
        match dec_id_only(b@) {
            None => r == Err::<UnsubAckPacket, DecodeError>(DecodeError::MalformedBody),
            Some(id) => r == Ok::<UnsubAckPacket, DecodeError>(UnsubAckPacket { packet_id: id }),
        },
{
    match parse_id_only(b) {
        Ok(id) => Ok(UnsubAckPacket { packet_id: id }),
        Err(e) => Err(e),
    }
}

/// Decodes a SUBACK body: a packet id, then one return code per byte.
pub fn parse_suback(b: &[u8]) -> (r: Result<SubAckPacket, DecodeError>)
    ensures
        match sp_u16(b@) {
            None => r is Err,
            Some((id, rest)) => r matches Ok(p) && p.packet_id == id && p.return_codes@ == rest,
        },
{
    match parse_body(PacketType::SubAck, 0, b) {
        Ok(MqttPacket::SubAck(p)) => Ok(p),
        _ => Err(DecodeError::MalformedBody),
    }
}

/// Decodes a PINGREQ body, which is empty.
pub fn parse_ping_req(b: &[u8]) -> (r: Result<PingReqPacket, DecodeError>)
    ensures
        r is Ok <==> b@.len() == 0,
{
    if b.len() == 0 { Ok(PingReqPacket) } else { Err(DecodeError::MalformedBody) }
}

/// Decodes a PINGRESP body, which is empty.
pub fn parse_ping_resp(b: &[u8]) -> (r: Result<PingRespPacket, DecodeError>)
    ensures
        r is Ok <==> b@.len() == 0,
{
    if b.len() == 0 { Ok(PingRespPacket) } else { Err(DecodeError::MalformedBody) }
}

/// Decodes a DISCONNECT body, which is empty.
pub fn parse_disconnect(b: &[u8]) -> (r: Result<DisconnectPacket, DecodeError>)
    ensures
        r is Ok <==> b@.len() == 0,
{
    if b.len() == 0 { Ok(DisconnectPacket) } else { Err(DecodeError::MalformedBody) }
}

} // verus!
