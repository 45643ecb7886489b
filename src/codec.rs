use vstd::prelude::*;
use vstd::utf8::encode_utf8;
use crate::packet::{
    ConnectPacket, MqttPacket, PacketModel, PacketType, PublishPacket, SubscribePacket,
    UnsubscribePacket, string_view, strings_view, sub_topics_view, topic_qos_view,
};

verus! {

/// The largest remaining length that four length bytes can carry.
pub const MAX_REMAINING_LENGTH: usize = 268435455;

/// The largest length of a length-prefixed string or byte array.
pub const MAX_FIELD_LENGTH: usize = 65535;

/// A 16-bit integer, big-endian.
pub open spec fn be16(v: u16) -> Seq<u8> {
    seq![(v / 256) as u8, (v % 256) as u8]
}

/// The UTF-8 bytes of a string.
pub open spec fn utf8(s: Seq<char>) -> Seq<u8> {
    encode_utf8(s)
}

/// A byte array with its two-byte length prefix.
pub open spec fn enc_binary(b: Seq<u8>) -> Seq<u8> {
    be16(b.len() as u16) + b
}

/// A string with its two-byte length prefix.
pub open spec fn enc_string(s: Seq<char>) -> Seq<u8> {
    enc_binary(utf8(s))
}

pub open spec fn enc_opt_string(o: Option<Seq<char>>) -> Seq<u8> {
    match o {
        Some(s) => enc_string(s),
        None => Seq::empty(),
    }
}

pub open spec fn enc_opt_binary(o: Option<Seq<u8>>) -> Seq<u8> {
    match o {
        Some(b) => enc_binary(b),
        None => Seq::empty(),
    }
}

/// The variable-length "remaining length" integer: seven bits per byte, low
/// group first, high bit set on every byte but the last.
pub open spec fn enc_remaining_length(n: nat) -> Seq<u8>
    decreases n,
{
    if n < 128 {
        seq![n as u8]
    } else {
        seq![(n % 128 + 128) as u8] + enc_remaining_length(n / 128)
    }
}

/// The filters and requested qos levels of a SUBSCRIBE, in order.
pub open spec fn enc_sub_topics(ts: Seq<(Seq<char>, u8)>) -> Seq<u8>
    decreases ts.len(),
{
    if ts.len() == 0 {
        Seq::empty()
    } else {
        enc_sub_topics(ts.drop_last()) + enc_string(ts.last().0) + seq![ts.last().1]
    }
}

/// The filters of an UNSUBSCRIBE, in order.
pub open spec fn enc_unsub_topics(ts: Seq<Seq<char>>) -> Seq<u8>
    decreases ts.len(),
{
    if ts.len() == 0 {
        Seq::empty()
    } else {
        enc_unsub_topics(ts.drop_last()) + enc_string(ts.last())
    }
}

pub open spec fn enc_packet_id(o: Option<u16>) -> Seq<u8> {
    match o {
        Some(id) => be16(id),
        None => Seq::empty(),
    }
}

pub open spec fn bool_byte(b: bool) -> u8 {
    if b {
        1
    } else {
        0
    }
}

/// Variable header and payload of a packet.
pub open spec fn enc_body(p: PacketModel) -> Seq<u8> {
    match p {
        PacketModel::Connect(c) => enc_string(c.protocol_name) + seq![
            c.protocol_level,
            c.connect_flags,
        ] + be16(c.keep_alive) + enc_string(c.client_id) + enc_opt_string(c.will_topic)
            + enc_opt_binary(c.will_message) + enc_opt_string(c.username) + enc_opt_binary(
            c.password,
        ),
        PacketModel::ConnAck { session_present, return_code } => seq![
            bool_byte(session_present),
            return_code.spec_code(),
        ],
        PacketModel::Publish(m) => enc_string(m.topic) + enc_packet_id(m.packet_id) + m.payload,
        PacketModel::PubAck(id) => be16(id),
        PacketModel::PubRec(id) => be16(id),
        PacketModel::PubRel(id) => be16(id),
        PacketModel::PubComp(id) => be16(id),
        PacketModel::Subscribe { packet_id, topics } => be16(packet_id) + enc_sub_topics(topics),
        PacketModel::SubAck { packet_id, return_codes } => be16(packet_id) + return_codes,
        PacketModel::Unsubscribe { packet_id, topics } => be16(packet_id) + enc_unsub_topics(
            topics,
        ),
        PacketModel::UnsubAck(id) => be16(id),
        PacketModel::PingReq => Seq::empty(),
        PacketModel::PingResp => Seq::empty(),
        PacketModel::Disconnect => Seq::empty(),
    }
}

pub open spec fn packet_type_of(p: PacketModel) -> PacketType {
    match p {
        PacketModel::Connect(_) => PacketType::Connect,
        PacketModel::ConnAck { .. } => PacketType::ConnAck,
        PacketModel::Publish(_) => PacketType::Publish,
        PacketModel::PubAck(_) => PacketType::PubAck,
        PacketModel::PubRec(_) => PacketType::PubRec,
        PacketModel::PubRel(_) => PacketType::PubRel,
        PacketModel::PubComp(_) => PacketType::PubComp,
        PacketModel::Subscribe { .. } => PacketType::Subscribe,
        PacketModel::SubAck { .. } => PacketType::SubAck,
        PacketModel::Unsubscribe { .. } => PacketType::Unsubscribe,
        PacketModel::UnsubAck(_) => PacketType::UnsubAck,
        PacketModel::PingReq => PacketType::PingReq,
        PacketModel::PingResp => PacketType::PingResp,
        PacketModel::Disconnect => PacketType::Disconnect,
    }
}

/// The low nibble of the first byte: `dup|qos|qos|retain` for PUBLISH, `0010`
/// for PUBREL, SUBSCRIBE and UNSUBSCRIBE, `0000` otherwise.
pub open spec fn header_flags(p: PacketModel) -> u8 {
    match p {
        PacketModel::Publish(m) => (bool_byte(m.dup) * 8 + m.qos * 2 + bool_byte(m.retain)) as u8,
        PacketModel::PubRel(_) => 2,
        PacketModel::Subscribe { .. } => 2,
        PacketModel::Unsubscribe { .. } => 2,
        _ => 0,
    }
}

pub open spec fn first_byte(t: PacketType, flags: u8) -> u8 {
    (t.spec_code() * 16 + flags % 16) as u8
}

/// The complete wire form of a packet.
pub open spec fn encode(p: PacketModel) -> Seq<u8> {
    seq![first_byte(packet_type_of(p), header_flags(p))] + enc_remaining_length(
        enc_body(p).len(),
    ) + enc_body(p)
}

pub open spec fn opt_string_fits(o: Option<Seq<char>>) -> bool {
    match o {
        Some(s) => utf8(s).len() <= MAX_FIELD_LENGTH,
        None => true,
    }
}

pub open spec fn opt_binary_fits(o: Option<Seq<u8>>) -> bool {
    match o {
        Some(b) => b.len() <= MAX_FIELD_LENGTH,
        None => true,
    }
}

pub open spec fn sub_topics_fit(ts: Seq<(Seq<char>, u8)>) -> bool {
    forall|i: int| 0 <= i < ts.len() ==> utf8(#[trigger] ts[i].0).len() <= MAX_FIELD_LENGTH
}

pub open spec fn unsub_topics_fit(ts: Seq<Seq<char>>) -> bool {
    forall|i: int| 0 <= i < ts.len() ==> utf8(#[trigger] ts[i]).len() <= MAX_FIELD_LENGTH
}

/// Every length-prefixed field of the packet fits its 16-bit prefix.
pub open spec fn fields_fit(p: PacketModel) -> bool {
    match p {
        PacketModel::Connect(c) => {
            &&& utf8(c.protocol_name).len() <= MAX_FIELD_LENGTH
            &&& utf8(c.client_id).len() <= MAX_FIELD_LENGTH
            &&& opt_string_fits(c.will_topic)
            &&& opt_binary_fits(c.will_message)
            &&& opt_string_fits(c.username)
            &&& opt_binary_fits(c.password)
        },
        PacketModel::Publish(m) => {
            &&& utf8(m.topic).len() <= MAX_FIELD_LENGTH
            &&& m.qos <= 2
            &&& (m.packet_id is Some <==> m.qos > 0)
            &&& (m.dup ==> m.qos > 0)
        },
        PacketModel::Subscribe { topics, .. } => sub_topics_fit(topics),
        PacketModel::Unsubscribe { topics, .. } => unsub_topics_fit(topics),
        _ => true,
    }
}

/// A packet that has a wire form: its fields fit their length prefixes and
/// its body fits the largest remaining length.
pub open spec fn encodable(p: PacketModel) -> bool {
    fields_fit(p) && enc_body(p).len() <= MAX_REMAINING_LENGTH
}

/// Appends `b` to `out`.
fn append_bytes(out: &mut Vec<u8>, b: &[u8])
    ensures
        final(out)@ == old(out)@ + b@,
{
    let ghost start = out@;
    let mut i: usize = 0;
    while i < b.len()
        invariant
            0 <= i <= b@.len(),
            out@ == start + b@.subrange(0, i as int),
        decreases b@.len() - i,
    {
        out.push(b[i]);
        i = i + 1;
        assert(out@ =~= start + b@.subrange(0, i as int));
    }
    assert(b@.subrange(0, i as int) =~= b@);
}

/// Appends a big-endian 16-bit integer.
fn append_u16(out: &mut Vec<u8>, v: u16)
    ensures
        final(out)@ == old(out)@ + be16(v),
{
    out.push((v / 256) as u8);
    out.push((v % 256) as u8);
    assert(final(out)@ =~= old(out)@ + be16(v));
}

/// Appends a length-prefixed byte array.
fn append_binary(out: &mut Vec<u8>, b: &[u8])
    requires
        b@.len() <= MAX_FIELD_LENGTH,
    ensures
        final(out)@ == old(out)@ + enc_binary(b@),
{
    append_u16(out, b.len() as u16);
    append_bytes(out, b);
    assert(final(out)@ =~= old(out)@ + enc_binary(b@));
}

/// Appends a length-prefixed UTF-8 string.
fn append_string(out: &mut Vec<u8>, s: &str)
    requires
        utf8(s@).len() <= MAX_FIELD_LENGTH,
    ensures
        final(out)@ == old(out)@ + enc_string(s@),
{
    append_binary(out, s.as_bytes());
}

/// The remaining-length integer for `length`.
pub fn serialize_remaining_length(length: usize) -> (r: Vec<u8>)
    ensures
        r@ == enc_remaining_length(length as nat),
{
    let mut result: Vec<u8> = Vec::new();
    let mut value: usize = length;
    loop
        invariant
            result@ + enc_remaining_length(value as nat) == enc_remaining_length(length as nat),
        decreases value,
    {
        if value < 128 {
            result.push(value as u8);
            return result;
        }
        let byte: u8 = (value % 128 + 128) as u8;
        proof {
            assert(enc_remaining_length(value as nat) == seq![byte] + enc_remaining_length(
                (value / 128) as nat,
            ));
        }
        result.push(byte);
        value = value / 128;
        assert(result@ + enc_remaining_length(value as nat) =~= enc_remaining_length(
            length as nat,
        ));
    }
}

/// A length-prefixed MQTT string.
pub fn serialize_mqtt_string(s: &str) -> (r: Vec<u8>)
    requires
        utf8(s@).len() <= MAX_FIELD_LENGTH,
    ensures
        r@ == enc_string(s@),
{
    let mut result: Vec<u8> = Vec::new();
    append_string(&mut result, s);
    assert(result@ =~= enc_string(s@));
    result
}

/// A length-prefixed MQTT byte array.
pub fn serialize_mqtt_binary(data: &Vec<u8>) -> (r: Vec<u8>)
    requires
        data@.len() <= MAX_FIELD_LENGTH,
    ensures
        r@ == enc_binary(data@),
{
    let mut result: Vec<u8> = Vec::new();
    append_binary(&mut result, data.as_slice());
    assert(result@ =~= enc_binary(data@));
    result
}

/// The fixed header: type and flags byte, then the remaining length.
pub fn serialize_fixed_header(packet_type: PacketType, flags: u8, remaining_length: usize) -> (r:
    Vec<u8>)
    ensures
        r@ == seq![first_byte(packet_type, flags)] + enc_remaining_length(remaining_length as nat),
{
    let mut result: Vec<u8> = Vec::new();
    result.push(packet_type.code() * 16 + flags % 16);
    let rl = serialize_remaining_length(remaining_length);
    append_bytes(&mut result, rl.as_slice());
    result
}

fn append_opt_string(out: &mut Vec<u8>, o: &Option<String>)
    requires
        opt_string_fits(crate::packet::opt_str_view(*o)),
    ensures
        final(out)@ == old(out)@ + enc_opt_string(crate::packet::opt_str_view(*o)),
{
    match o {
        Some(s) => append_string(out, s.as_str()),
        None => {
            assert(final(out)@ =~= old(out)@ + enc_opt_string(crate::packet::opt_str_view(*o)));
        },
    }
}

fn append_opt_binary(out: &mut Vec<u8>, o: &Option<Vec<u8>>)
    requires
        opt_binary_fits(crate::packet::opt_bytes_view(*o)),
    ensures
        final(out)@ == old(out)@ + enc_opt_binary(crate::packet::opt_bytes_view(*o)),
{
    match o {
        Some(b) => append_binary(out, b.as_slice()),
        None => {
            assert(final(out)@ =~= old(out)@ + enc_opt_binary(crate::packet::opt_bytes_view(*o)));
        },
    }
}

fn connect_body(c: &ConnectPacket) -> (r: Vec<u8>)
    requires
        fields_fit(PacketModel::Connect(c@)),
    ensures
        r@ == enc_body(PacketModel::Connect(c@)),
{
    let mut out: Vec<u8> = Vec::new();
    append_string(&mut out, c.protocol_name.as_str());
    out.push(c.protocol_level);
    out.push(c.connect_flags);
    append_u16(&mut out, c.keep_alive);
    append_string(&mut out, c.client_id.as_str());
    append_opt_string(&mut out, &c.will_topic);
    append_opt_binary(&mut out, &c.will_message);
    append_opt_string(&mut out, &c.username);
    append_opt_binary(&mut out, &c.password);
    assert(out@ =~= enc_body(PacketModel::Connect(c@)));
    out
}

fn publish_body(m: &PublishPacket) -> (r: Vec<u8>)
    requires
        fields_fit(PacketModel::Publish(m@)),
    ensures
        r@ == enc_body(PacketModel::Publish(m@)),
{
    let mut out: Vec<u8> = Vec::new();
    append_string(&mut out, m.topic_name.as_str());
    match m.packet_id {
        Some(id) => append_u16(&mut out, id),
        None => {},
    }
    append_bytes(&mut out, m.payload.as_slice());
    assert(out@ =~= enc_body(PacketModel::Publish(m@)));
    out
}

fn subscribe_body(p: &SubscribePacket) -> (r: Vec<u8>)
    requires
        fields_fit((MqttPacket::Subscribe(*p))@),
    ensures
        r@ == enc_body((MqttPacket::Subscribe(*p))@),
{
    let ghost ts = sub_topics_view(p.topics@);
    let mut out: Vec<u8> = Vec::new();
    append_u16(&mut out, p.packet_id);
    let mut i: usize = 0;
    assert(ts.take(0) =~= Seq::<(Seq<char>, u8)>::empty());
    while i < p.topics.len()
        invariant
            0 <= i <= p.topics@.len(),
            ts == sub_topics_view(p.topics@),
            sub_topics_fit(ts),
            out@ == be16(p.packet_id) + enc_sub_topics(ts.take(i as int)),
        decreases p.topics@.len() - i,
    {
        let pair = &p.topics[i];
        assert(ts[i as int] == topic_qos_view(p.topics@[i as int]));
        assert(utf8(ts[i as int].0).len() <= MAX_FIELD_LENGTH);
        append_string(&mut out, pair.0.as_str());
        out.push(pair.1);
        proof {
            assert(ts.take(i + 1).drop_last() =~= ts.take(i as int));
            assert(ts.take(i + 1).last() == ts[i as int]);
        }
        i = i + 1;
        assert(out@ =~= be16(p.packet_id) + enc_sub_topics(ts.take(i as int)));
    }
    assert(ts.take(i as int) =~= ts);
    out
}

fn unsubscribe_body(p: &UnsubscribePacket) -> (r: Vec<u8>)
    requires
        fields_fit((MqttPacket::Unsubscribe(*p))@),
    ensures
        r@ == enc_body((MqttPacket::Unsubscribe(*p))@),
{
    let ghost ts = strings_view(p.topics@);
    let mut out: Vec<u8> = Vec::new();
    append_u16(&mut out, p.packet_id);
    let mut i: usize = 0;
    assert(ts.take(0) =~= Seq::<Seq<char>>::empty());
    while i < p.topics.len()
        invariant
            0 <= i <= p.topics@.len(),
            ts == strings_view(p.topics@),
            unsub_topics_fit(ts),
            out@ == be16(p.packet_id) + enc_unsub_topics(ts.take(i as int)),
        decreases p.topics@.len() - i,
    {
        let t = &p.topics[i];
        assert(ts[i as int] == string_view(p.topics@[i as int]));
        append_string(&mut out, t.as_str());
        proof {
            assert(ts.take(i + 1).drop_last() =~= ts.take(i as int));
            assert(ts.take(i + 1).last() == ts[i as int]);
        }
        i = i + 1;
        assert(out@ =~= be16(p.packet_id) + enc_unsub_topics(ts.take(i as int)));
    }
    assert(ts.take(i as int) =~= ts);
    out
}

fn u16_body(id: u16) -> (r: Vec<u8>)
    ensures
        r@ == be16(id),
{
    let mut out: Vec<u8> = Vec::new();
    append_u16(&mut out, id);
    assert(out@ =~= be16(id));
    out
}

/// Variable header and payload of `packet`.
fn serialize_body(packet: &MqttPacket) -> (r: Vec<u8>)
    requires
        fields_fit(packet@),
    ensures
        r@ == enc_body(packet@),
{
    match packet {
        MqttPacket::Connect(c) => connect_body(c),
        MqttPacket::ConnAck(c) => {
            let mut out: Vec<u8> = Vec::new();
            out.push(if c.session_present { 1 } else { 0 });
            out.push(c.return_code.code());
            assert(out@ =~= enc_body(packet@));
            out
        },
        MqttPacket::Publish(m) => publish_body(m),
        MqttPacket::PubAck(a) => u16_body(a.packet_id),
        MqttPacket::PubRec(a) => u16_body(a.packet_id),
        MqttPacket::PubRel(a) => u16_body(a.packet_id),
        MqttPacket::PubComp(a) => u16_body(a.packet_id),
        MqttPacket::Subscribe(s) => subscribe_body(s),
        MqttPacket::SubAck(s) => {
            let mut out: Vec<u8> = Vec::new();
            append_u16(&mut out, s.packet_id);
            append_bytes(&mut out, s.return_codes.as_slice());
            assert(out@ =~= enc_body(packet@));
            out
        },
        MqttPacket::Unsubscribe(u) => unsubscribe_body(u),
        MqttPacket::UnsubAck(a) => u16_body(a.packet_id),
        _ => {
            let out: Vec<u8> = Vec::new();
            assert(out@ =~= enc_body(packet@));
            out
        },
    }
}

impl MqttPacket {
    /// The kind of this packet.
    pub fn packet_type(&self) -> (r: PacketType)
        ensures
            r == packet_type_of(self@),
    {
        match self {
            MqttPacket::Connect(_) => PacketType::Connect,
            MqttPacket::ConnAck(_) => PacketType::ConnAck,
            MqttPacket::Publish(_) => PacketType::Publish,
            MqttPacket::PubAck(_) => PacketType::PubAck,
            MqttPacket::PubRec(_) => PacketType::PubRec,
            MqttPacket::PubRel(_) => PacketType::PubRel,
            MqttPacket::PubComp(_) => PacketType::PubComp,
            MqttPacket::Subscribe(_) => PacketType::Subscribe,
            MqttPacket::SubAck(_) => PacketType::SubAck,
            MqttPacket::Unsubscribe(_) => PacketType::Unsubscribe,
            MqttPacket::UnsubAck(_) => PacketType::UnsubAck,
            MqttPacket::PingReq(_) => PacketType::PingReq,
            MqttPacket::PingResp(_) => PacketType::PingResp,
            MqttPacket::Disconnect(_) => PacketType::Disconnect,
        }
    }

    /// The low nibble of the first byte of this packet's wire form.
    pub fn header_flags(&self) -> (r: u8)
        requires
            fields_fit(self@),
        ensures
            r == header_flags(self@),
            r < 16,
    {
        match self {
            MqttPacket::Publish(m) => {
                let d: u8 = if m.dup { 8 } else { 0 };
                let k: u8 = if m.retain { 1 } else { 0 };
                d + m.qos * 2 + k
            },
            MqttPacket::PubRel(_) => 2,
            MqttPacket::Subscribe(_) => 2,
            MqttPacket::Unsubscribe(_) => 2,
            _ => 0,
        }
    }

    /// Whether this packet has a wire form (see `encodable`).
    pub fn is_encodable(&self) -> (r: bool)
        ensures
            r == encodable(self@),
    {
        if !fields_fit_exec(self) {
            return false;
        }
        let body = serialize_body(self);
        body.len() <= MAX_REMAINING_LENGTH
    }
}

fn string_fits(s: &String) -> (r: bool)
    ensures
        r == (utf8(s@).len() <= MAX_FIELD_LENGTH),
{
    s.as_str().as_bytes().len() <= MAX_FIELD_LENGTH
}

fn opt_string_fits_exec(o: &Option<String>) -> (r: bool)
    ensures
        r == opt_string_fits(crate::packet::opt_str_view(*o)),
{
    match o {
        Some(s) => string_fits(s),
        None => true,
    }
}

fn opt_binary_fits_exec(o: &Option<Vec<u8>>) -> (r: bool)
    ensures
        r == opt_binary_fits(crate::packet::opt_bytes_view(*o)),
{
    match o {
        Some(b) => b.len() <= MAX_FIELD_LENGTH,
        None => true,
    }
}

fn fields_fit_exec(p: &MqttPacket) -> (r: bool)
    ensures
        r == fields_fit(p@),
{
    match p {
        MqttPacket::Connect(c) => string_fits(&c.protocol_name) && string_fits(&c.client_id)
            && opt_string_fits_exec(&c.will_topic) && opt_binary_fits_exec(&c.will_message)
            && opt_string_fits_exec(&c.username) && opt_binary_fits_exec(&c.password),
        MqttPacket::Publish(m) => string_fits(&m.topic_name) && m.qos <= 2 && (m.packet_id.is_some()
            == (m.qos > 0)) && (!m.dup || m.qos > 0),
        MqttPacket::Subscribe(s) => {
            let ghost ts = sub_topics_view(s.topics@);
            let mut i: usize = 0;
            while i < s.topics.len()
                invariant
                    0 <= i <= s.topics@.len(),
                    ts == sub_topics_view(s.topics@),
                    p@ == (PacketModel::Subscribe { packet_id: s.packet_id, topics: ts }),
                    forall|j: int| 0 <= j < i ==> utf8(#[trigger] ts[j].0).len() <= MAX_FIELD_LENGTH,
                decreases s.topics@.len() - i,
            {
                assert(ts[i as int] == topic_qos_view(s.topics@[i as int]));
                if !string_fits(&s.topics[i].0) {
                    assert(utf8(ts[i as int].0).len() > MAX_FIELD_LENGTH);
                    return false;
                }
                i = i + 1;
            }
            true
        },
        MqttPacket::Unsubscribe(u) => {
            let ghost ts = strings_view(u.topics@);
            let mut i: usize = 0;
            while i < u.topics.len()
                invariant
                    0 <= i <= u.topics@.len(),
                    ts == strings_view(u.topics@),
                    p@ == (PacketModel::Unsubscribe { packet_id: u.packet_id, topics: ts }),
                    forall|j: int| 0 <= j < i ==> utf8(#[trigger] ts[j]).len() <= MAX_FIELD_LENGTH,
                decreases u.topics@.len() - i,
            {
                assert(ts[i as int] == string_view(u.topics@[i as int]));
                if !string_fits(&u.topics[i]) {
                    assert(utf8(ts[i as int]).len() > MAX_FIELD_LENGTH);
                    return false;
                }
                i = i + 1;
            }
            true
        },
        _ => true,
    }
}

/// The complete wire form of `packet`: fixed header, remaining length
/// computed from the body, then the body.
pub fn serialize_packet(packet: &MqttPacket) -> (r: Vec<u8>)
    requires
        encodable(packet@),
    ensures
        r@ == encode(packet@),
{
    let body = serialize_body(packet);
    let mut out = serialize_fixed_header(packet.packet_type(), packet.header_flags(), body.len());
    append_bytes(&mut out, body.as_slice());
    out
}

} // verus!
