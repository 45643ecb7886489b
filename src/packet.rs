use vstd::prelude::*;

verus! {

/// The kind of an MQTT control packet, from the high nibble of the first byte.
#[derive(Debug, Clone, Copy, PartialEq, Eq, Structural)]
pub enum PacketType {
    Connect,
    ConnAck,
    Publish,
    PubAck,
    PubRec,
    PubRel,
    PubComp,
    Subscribe,
    SubAck,
    Unsubscribe,
    UnsubAck,
    PingReq,
    PingResp,
    Disconnect,
}

impl PacketType {
    /// The wire code of this kind (1 to 14).
    pub open spec fn spec_code(self) -> u8 {
        match self {
            PacketType::Connect => 1,
            PacketType::ConnAck => 2,
            PacketType::Publish => 3,
            PacketType::PubAck => 4,
            PacketType::PubRec => 5,
            PacketType::PubRel => 6,
            PacketType::PubComp => 7,
            PacketType::Subscribe => 8,
            PacketType::SubAck => 9,
            PacketType::Unsubscribe => 10,
            PacketType::UnsubAck => 11,
            PacketType::PingReq => 12,
            PacketType::PingResp => 13,
            PacketType::Disconnect => 14,
        }
    }

    /// The kind whose wire code is `value`, if any.
    pub open spec fn spec_from_code(value: u8) -> Option<PacketType> {
        if value == 1 {
            Some(PacketType::Connect)
        } else if value == 2 {
            Some(PacketType::ConnAck)
        } else if value == 3 {
            Some(PacketType::Publish)
        } else if value == 4 {
            Some(PacketType::PubAck)
        } else if value == 5 {
            Some(PacketType::PubRec)
        } else if value == 6 {
            Some(PacketType::PubRel)
        } else if value == 7 {
            Some(PacketType::PubComp)
        } else if value == 8 {
            Some(PacketType::Subscribe)
        } else if value == 9 {
            Some(PacketType::SubAck)
        } else if value == 10 {
            Some(PacketType::Unsubscribe)
        } else if value == 11 {
            Some(PacketType::UnsubAck)
        } else if value == 12 {
            Some(PacketType::PingReq)
        } else if value == 13 {
            Some(PacketType::PingResp)
        } else if value == 14 {
            Some(PacketType::Disconnect)
        } else {
            None
        }
    }

    pub fn from_u8(value: u8) -> (r: Option<PacketType>)
        ensures
            r == PacketType::spec_from_code(value),
            (1 <= value <= 14) <==> r.is_some(),
            r matches Some(t) ==> t.spec_code() == value,
    {
        match value {
            1 => Some(PacketType::Connect),
            2 => Some(PacketType::ConnAck),
            3 => Some(PacketType::Publish),
            4 => Some(PacketType::PubAck),
            5 => Some(PacketType::PubRec),
            6 => Some(PacketType::PubRel),
            7 => Some(PacketType::PubComp),
            8 => Some(PacketType::Subscribe),
            9 => Some(PacketType::SubAck),
            10 => Some(PacketType::Unsubscribe),
            11 => Some(PacketType::UnsubAck),
            12 => Some(PacketType::PingReq),
            13 => Some(PacketType::PingResp),
            14 => Some(PacketType::Disconnect),
            _ => None,
        }
    }

    pub fn code(self) -> (r: u8)
        ensures
            r == self.spec_code(),
    {
        match self {
            PacketType::Connect => 1,
            PacketType::ConnAck => 2,
            PacketType::Publish => 3,
            PacketType::PubAck => 4,
            PacketType::PubRec => 5,
            PacketType::PubRel => 6,
            PacketType::PubComp => 7,
            PacketType::Subscribe => 8,
            PacketType::SubAck => 9,
            PacketType::Unsubscribe => 10,
            PacketType::UnsubAck => 11,
            PacketType::PingReq => 12,
            PacketType::PingResp => 13,
            PacketType::Disconnect => 14,
        }
    }
}

/// The return code of a CONNACK.
#[derive(Debug, Clone, Copy, PartialEq, Eq, Structural)]
pub enum ConnectReturnCode {
    Accepted,
    RefusedBadProtocolVersion,
    RefusedIdentifierRejected,
    RefusedServerUnavailable,
    RefusedBadUsernameOrPassword,
    RefusedNotAuthorized,
}

impl ConnectReturnCode {
    /// The wire value of this code (0 to 5).
    pub open spec fn spec_code(self) -> u8 {
        match self {
            ConnectReturnCode::Accepted => 0,
            ConnectReturnCode::RefusedBadProtocolVersion => 1,
            ConnectReturnCode::RefusedIdentifierRejected => 2,
            ConnectReturnCode::RefusedServerUnavailable => 3,
            ConnectReturnCode::RefusedBadUsernameOrPassword => 4,
            ConnectReturnCode::RefusedNotAuthorized => 5,
        }
    }

    /// The code whose wire value is `value`, if any.
    pub open spec fn spec_from_code(value: u8) -> Option<ConnectReturnCode> {
        if value == 0 {
            Some(ConnectReturnCode::Accepted)
        } else if value == 1 {
            Some(ConnectReturnCode::RefusedBadProtocolVersion)
        } else if value == 2 {
            Some(ConnectReturnCode::RefusedIdentifierRejected)
        } else if value == 3 {
            Some(ConnectReturnCode::RefusedServerUnavailable)
        } else if value == 4 {
            Some(ConnectReturnCode::RefusedBadUsernameOrPassword)
        } else if value == 5 {
            Some(ConnectReturnCode::RefusedNotAuthorized)
        } else {
            None
        }
    }

    pub fn from_u8(value: u8) -> (r: Option<ConnectReturnCode>)
        ensures
            r == ConnectReturnCode::spec_from_code(value),
            (value <= 5) <==> r.is_some(),
            r matches Some(c) ==> c.spec_code() == value,
    {
        match value {
            0 => Some(ConnectReturnCode::Accepted),
            1 => Some(ConnectReturnCode::RefusedBadProtocolVersion),
            2 => Some(ConnectReturnCode::RefusedIdentifierRejected),
            3 => Some(ConnectReturnCode::RefusedServerUnavailable),
            4 => Some(ConnectReturnCode::RefusedBadUsernameOrPassword),
            5 => Some(ConnectReturnCode::RefusedNotAuthorized),
            _ => None,
        }
    }

    pub fn code(self) -> (r: u8)
        ensures
            r == self.spec_code(),
    {
        match self {
            ConnectReturnCode::Accepted => 0,
            ConnectReturnCode::RefusedBadProtocolVersion => 1,
            ConnectReturnCode::RefusedIdentifierRejected => 2,
            ConnectReturnCode::RefusedServerUnavailable => 3,
            ConnectReturnCode::RefusedBadUsernameOrPassword => 4,
            ConnectReturnCode::RefusedNotAuthorized => 5,
        }
    }
}

/// The fixed header: kind, low-nibble flags and the declared remaining length.
#[derive(Debug, Clone, Copy, PartialEq, Eq, Structural)]
pub struct FixedHeader {
    pub packet_type: PacketType,
    pub flags: u8,
    pub remaining_length: usize,
}

/// CONNECT. The optional fields are present exactly when their flag bit is set.
#[derive(Debug, Clone)]
pub struct ConnectPacket {
    pub protocol_name: String,
    pub protocol_level: u8,
    pub connect_flags: u8,
    pub keep_alive: u16,
    pub client_id: String,
    pub will_topic: Option<String>,
    pub will_message: Option<Vec<u8>>,
    pub username: Option<String>,
    pub password: Option<Vec<u8>>,
}

#[derive(Debug, Clone, Copy, PartialEq, Eq, Structural)]
pub struct ConnAckPacket {
    pub session_present: bool,
    pub return_code: ConnectReturnCode,
}

/// PUBLISH. `packet_id` is present exactly when `qos > 0`.
#[derive(Debug, Clone)]
pub struct PublishPacket {
    pub dup: bool,
    pub qos: u8,
    pub retain: bool,
    pub topic_name: String,
    pub packet_id: Option<u16>,
    pub payload: Vec<u8>,
}

#[derive(Debug, Clone, Copy, PartialEq, Eq, Structural)]
pub struct PubAckPacket {
    pub packet_id: u16,
}

#[derive(Debug, Clone, Copy, PartialEq, Eq, Structural)]
pub struct PubRecPacket {
    pub packet_id: u16,
}

#[derive(Debug, Clone, Copy, PartialEq, Eq, Structural)]
pub struct PubRelPacket {
    pub packet_id: u16,
}

#[derive(Debug, Clone, Copy, PartialEq, Eq, Structural)]
pub struct PubCompPacket {
    pub packet_id: u16,
}

/// SUBSCRIBE: a list of (topic filter, requested qos).
#[derive(Debug, Clone)]
pub struct SubscribePacket {
    pub packet_id: u16,
    pub topics: Vec<(String, u8)>,
}

/// SUBACK: one return code per requested filter.
#[derive(Debug, Clone)]
pub struct SubAckPacket {
    pub packet_id: u16,
    pub return_codes: Vec<u8>,
}

#[derive(Debug, Clone)]
pub struct UnsubscribePacket {
    pub packet_id: u16,
    pub topics: Vec<String>,
}

#[derive(Debug, Clone, Copy, PartialEq, Eq, Structural)]
pub struct UnsubAckPacket {
    pub packet_id: u16,
}

#[derive(Debug, Clone, Copy, PartialEq, Eq, Structural)]
pub struct PingReqPacket;

#[derive(Debug, Clone, Copy, PartialEq, Eq, Structural)]
pub struct PingRespPacket;

#[derive(Debug, Clone, Copy, PartialEq, Eq, Structural)]
pub struct DisconnectPacket;

/// One decoded MQTT control packet.
#[derive(Debug, Clone)]
pub enum MqttPacket {
    Connect(ConnectPacket),
    ConnAck(ConnAckPacket),
    Publish(PublishPacket),
    PubAck(PubAckPacket),
    PubRec(PubRecPacket),
    PubRel(PubRelPacket),
    PubComp(PubCompPacket),
    Subscribe(SubscribePacket),
    SubAck(SubAckPacket),
    Unsubscribe(UnsubscribePacket),
    UnsubAck(UnsubAckPacket),
    PingReq(PingReqPacket),
    PingResp(PingRespPacket),
    Disconnect(DisconnectPacket),
}

/// What a CONNECT says, with strings as characters and binary fields as bytes.
pub struct ConnectModel {
    pub protocol_name: Seq<char>,
    pub protocol_level: u8,
    pub connect_flags: u8,
    pub keep_alive: u16,
    pub client_id: Seq<char>,
    pub will_topic: Option<Seq<char>>,
    pub will_message: Option<Seq<u8>>,
    pub username: Option<Seq<char>>,
    pub password: Option<Seq<u8>>,
}

/// What a PUBLISH says.
pub struct PublishModel {
    pub dup: bool,
    pub qos: u8,
    pub retain: bool,
    pub topic: Seq<char>,
    pub packet_id: Option<u16>,
    pub payload: Seq<u8>,
}

/// The mathematical value of a packet: what decoding yields and encoding reads.
pub enum PacketModel {
    Connect(ConnectModel),
    ConnAck { session_present: bool, return_code: ConnectReturnCode },
    Publish(PublishModel),
    PubAck(u16),
    PubRec(u16),
    PubRel(u16),
    PubComp(u16),
    Subscribe { packet_id: u16, topics: Seq<(Seq<char>, u8)> },
    SubAck { packet_id: u16, return_codes: Seq<u8> },
    Unsubscribe { packet_id: u16, topics: Seq<Seq<char>> },
    UnsubAck(u16),
    PingReq,
    PingResp,
    Disconnect,
}

pub open spec fn opt_str_view(o: Option<String>) -> Option<Seq<char>> {
    match o {
        Some(s) => Some(s@),
        None => None,
    }
}

pub open spec fn opt_bytes_view(o: Option<Vec<u8>>) -> Option<Seq<u8>> {
    match o {
        Some(v) => Some(v@),
        None => None,
    }
}

impl View for ConnectPacket {
    type V = ConnectModel;

    open spec fn view(&self) -> ConnectModel {
        ConnectModel {
            protocol_name: self.protocol_name@,
            protocol_level: self.protocol_level,
            connect_flags: self.connect_flags,
            keep_alive: self.keep_alive,
            client_id: self.client_id@,
            will_topic: opt_str_view(self.will_topic),
            will_message: opt_bytes_view(self.will_message),
            username: opt_str_view(self.username),
            password: opt_bytes_view(self.password),
        }
    }
}

impl View for PublishPacket {
    type V = PublishModel;

    open spec fn view(&self) -> PublishModel {
        PublishModel {
            dup: self.dup,
            qos: self.qos,
            retain: self.retain,
            topic: self.topic_name@,
            packet_id: self.packet_id,
            payload: self.payload@,
        }
    }
}

pub open spec fn topic_qos_view(t: (String, u8)) -> (Seq<char>, u8) {
    (t.0@, t.1)
}

pub open spec fn string_view(s: String) -> Seq<char> {
    s@
}

/// The filters and qos levels of a SUBSCRIBE, as characters.
pub open spec fn sub_topics_view(v: Seq<(String, u8)>) -> Seq<(Seq<char>, u8)> {
    v.map_values(|t: (String, u8)| topic_qos_view(t))
}

/// The filters of an UNSUBSCRIBE, as characters.
pub open spec fn strings_view(v: Seq<String>) -> Seq<Seq<char>> {
    v.map_values(|t: String| string_view(t))
}

impl View for MqttPacket {
    type V = PacketModel;

    open spec fn view(&self) -> PacketModel {
        match self {
            MqttPacket::Connect(p) => PacketModel::Connect(p@),
            MqttPacket::ConnAck(p) => PacketModel::ConnAck {
                session_present: p.session_present,
                return_code: p.return_code,
            },
            MqttPacket::Publish(p) => PacketModel::Publish(p@),
            MqttPacket::PubAck(p) => PacketModel::PubAck(p.packet_id),
            MqttPacket::PubRec(p) => PacketModel::PubRec(p.packet_id),
            MqttPacket::PubRel(p) => PacketModel::PubRel(p.packet_id),
            MqttPacket::PubComp(p) => PacketModel::PubComp(p.packet_id),
            MqttPacket::Subscribe(p) => PacketModel::Subscribe {
                packet_id: p.packet_id,
                topics: sub_topics_view(p.topics@),
            },
            MqttPacket::SubAck(p) => PacketModel::SubAck {
                packet_id: p.packet_id,
                return_codes: p.return_codes@,
            },
            MqttPacket::Unsubscribe(p) => PacketModel::Unsubscribe {
                packet_id: p.packet_id,
                topics: strings_view(p.topics@),
            },
            MqttPacket::UnsubAck(p) => PacketModel::UnsubAck(p.packet_id),
            MqttPacket::PingReq(_) => PacketModel::PingReq,
            MqttPacket::PingResp(_) => PacketModel::PingResp,
            MqttPacket::Disconnect(_) => PacketModel::Disconnect,
        }
    }
}

} // verus!
