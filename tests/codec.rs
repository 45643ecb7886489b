use mqtt_adapt::decode::{parse_connect, parse_connect_anyhow, parse_publish, parse_publish_anyhow, parse_subscribe_anyhow};
use mqtt_adapt::codec::{
    serialize_fixed_header, serialize_mqtt_binary, serialize_mqtt_string, serialize_packet,
    serialize_remaining_length,
};
use mqtt_adapt::decode::{
    parse_fixed_header_anyhow, parse_mqtt_binary, parse_mqtt_string, parse_packet,
    parse_packet_anyhow, parse_remaining_length, try_decode, DecodeError, Decoded,
    RemainingLength,
};
use mqtt_adapt::packet::{
    ConnectPacket, ConnectReturnCode, MqttPacket, PacketType, PubAckPacket, PublishPacket,
    SubAckPacket, SubscribePacket, UnsubscribePacket,
};

#[test]
fn remaining_length_exact_bytes() {
    assert_eq!(serialize_remaining_length(0), vec![0x00]);
    assert_eq!(serialize_remaining_length(127), vec![0x7F]);
    assert_eq!(serialize_remaining_length(128), vec![0x80, 0x01]);
    assert_eq!(serialize_remaining_length(16383), vec![0xFF, 0x7F]);
    assert_eq!(serialize_remaining_length(16384), vec![0x80, 0x80, 0x01]);
    assert_eq!(serialize_remaining_length(268435455), vec![0xFF, 0xFF, 0xFF, 0x7F]);
}

#[test]
fn remaining_length_decodes() {
    assert_eq!(parse_remaining_length(&[0x80, 0x01], 0), RemainingLength::Value(128, 2));
    assert_eq!(
        parse_remaining_length(&[0xFF, 0xFF, 0xFF, 0x7F], 0),
        RemainingLength::Value(268435455, 4)
    );
    assert_eq!(parse_remaining_length(&[0xFF, 0xFF], 0), RemainingLength::Incomplete);
    assert_eq!(parse_remaining_length(&[0xFF, 0xFF, 0xFF, 0xFF, 0x01], 0), RemainingLength::TooLong);
}

#[test]
fn string_and_binary_fields() {
    assert_eq!(serialize_mqtt_string("ab"), vec![0x00, 0x02, b'a', b'b']);
    assert_eq!(serialize_mqtt_binary(&vec![1, 2, 3]), vec![0x00, 0x03, 1, 2, 3]);
    let (s, n) = parse_mqtt_string(&[0x00, 0x02, b'h', b'i', 9]).unwrap();
    assert_eq!(s, "hi");
    assert_eq!(n, 4);
    let (b, n) = parse_mqtt_binary(&[0x00, 0x01, 7]).unwrap();
    assert_eq!(b, vec![7]);
    assert_eq!(n, 3);
    assert_eq!(parse_mqtt_string(&[0x00, 0x02, 0xFF, 0xFE]), Err(DecodeError::MalformedBody));
}

#[test]
fn fixed_header_bytes() {
    assert_eq!(serialize_fixed_header(PacketType::PubRel, 2, 2), vec![0x62, 0x02]);
    assert_eq!(serialize_fixed_header(PacketType::Publish, 0x0B, 300), vec![0x3B, 0xAC, 0x02]);
}

#[test]
fn serialize_connect_exact_bytes() {
    let packet = MqttPacket::Connect(ConnectPacket {
        protocol_name: "MQTT".to_string(),
        protocol_level: 4,
        connect_flags: 2,
        keep_alive: 60,
        client_id: "test".to_string(),
        will_topic: None,
        will_message: None,
        username: None,
        password: None,
    });
    assert_eq!(
        serialize_packet(&packet),
        b"\x10\x10\x00\x04MQTT\x04\x02\x00\x3c\x00\x04test".to_vec()
    );
}

#[test]
fn serialize_publish_and_acks() {
    let publish = MqttPacket::Publish(PublishPacket {
        dup: true,
        qos: 1,
        retain: true,
        topic_name: "a/b".to_string(),
        packet_id: Some(10),
        payload: b"hi".to_vec(),
    });
    assert_eq!(
        serialize_packet(&publish),
        vec![0x3B, 0x09, 0x00, 0x03, b'a', b'/', b'b', 0x00, 0x0A, b'h', b'i']
    );
    let suback = MqttPacket::SubAck(SubAckPacket { packet_id: 1, return_codes: vec![0, 1, 0x80] });
    assert_eq!(serialize_packet(&suback), vec![0x90, 0x05, 0x00, 0x01, 0x00, 0x01, 0x80]);
    let puback = MqttPacket::PubAck(PubAckPacket { packet_id: 0x1234 });
    assert_eq!(serialize_packet(&puback), vec![0x40, 0x02, 0x12, 0x34]);
}

fn round_trip(p: MqttPacket) -> MqttPacket {
    assert!(p.is_encodable());
    let bytes = serialize_packet(&p);
    let (q, n) = parse_packet(&bytes).expect("decodes");
    assert_eq!(n, bytes.len());
    q
}

#[test]
fn round_trip_examples() {
    let connect = ConnectPacket {
        protocol_name: "MQTT".to_string(),
        protocol_level: 4,
        connect_flags: 0xC6,
        keep_alive: 30,
        client_id: "c1".to_string(),
        will_topic: Some("bye".to_string()),
        will_message: Some(b"gone".to_vec()),
        username: Some("u".to_string()),
        password: Some(b"p".to_vec()),
    };
    match round_trip(MqttPacket::Connect(connect)) {
        MqttPacket::Connect(c) => {
            assert_eq!(c.client_id, "c1");
            assert_eq!(c.will_topic, Some("bye".to_string()));
            assert_eq!(c.will_message, Some(b"gone".to_vec()));
            assert_eq!(c.username, Some("u".to_string()));
            assert_eq!(c.password, Some(b"p".to_vec()));
            assert_eq!(c.connect_flags, 0xC6);
        }
        other => panic!("unexpected {:?}", other),
    }
    let sub = SubscribePacket {
        packet_id: 5,
        topics: vec![("a/+".to_string(), 1), ("b/#".to_string(), 2)],
    };
    match round_trip(MqttPacket::Subscribe(sub)) {
        MqttPacket::Subscribe(s) => {
            assert_eq!(s.packet_id, 5);
            assert_eq!(s.topics, vec![("a/+".to_string(), 1), ("b/#".to_string(), 2)]);
        }
        other => panic!("unexpected {:?}", other),
    }
    let unsub = UnsubscribePacket { packet_id: 6, topics: vec!["x".to_string(), "y/z".to_string()] };
    match round_trip(MqttPacket::Unsubscribe(unsub)) {
        MqttPacket::Unsubscribe(u) => assert_eq!(u.topics, vec!["x".to_string(), "y/z".to_string()]),
        other => panic!("unexpected {:?}", other),
    }
    match round_trip(MqttPacket::ConnAck(mqtt_adapt::packet::ConnAckPacket {
        session_present: true,
        return_code: ConnectReturnCode::RefusedNotAuthorized,
    })) {
        MqttPacket::ConnAck(a) => {
            assert!(a.session_present);
            assert_eq!(a.return_code, ConnectReturnCode::RefusedNotAuthorized);
        }
        other => panic!("unexpected {:?}", other),
    }
}

#[test]
fn try_decode_needs_more_bytes() {
    assert!(matches!(try_decode(&[]), Decoded::Need(1)));
    assert!(matches!(try_decode(&[0x40]), Decoded::Need(1)));
    assert!(matches!(try_decode(&[0x40, 0x02, 0x00]), Decoded::Need(1)));
    assert!(matches!(try_decode(&[0x30, 0x05, 0x00]), Decoded::Need(4)));
    match try_decode(&[0x40, 0x02, 0x00, 0x09, 0xEE]) {
        Decoded::Packet(MqttPacket::PubAck(a), 4) => assert_eq!(a.packet_id, 9),
        other => panic!("unexpected {:?}", other),
    }
}

#[test]
fn try_decode_errors() {
    assert!(matches!(try_decode(&[0x00, 0x00]), Decoded::Error(DecodeError::InvalidPacketType)));
    assert!(matches!(try_decode(&[0xF0, 0x00]), Decoded::Error(DecodeError::InvalidPacketType)));
    assert!(matches!(try_decode(&[0x41, 0x02, 0, 1]), Decoded::Error(DecodeError::InvalidFlags)));
    assert!(matches!(try_decode(&[0x60, 0x02, 0, 1]), Decoded::Error(DecodeError::InvalidFlags)));
    assert!(matches!(try_decode(&[0x36, 0x00]), Decoded::Error(DecodeError::InvalidFlags)));
    assert!(matches!(try_decode(&[0x38, 0x00]), Decoded::Error(DecodeError::InvalidFlags)));
    assert!(matches!(
        try_decode(&[0x30, 0xFF, 0xFF, 0xFF, 0xFF, 0x01]),
        Decoded::Error(DecodeError::RemainingLengthTooLong)
    ));
    assert!(matches!(try_decode(&[0x40, 0x01, 0x00]), Decoded::Error(DecodeError::MalformedBody)));
    let bad_connect = b"\x10\x0e\x00\x04MQTT\x04\x40\x00\x3c\x00\x02ab";
    assert!(matches!(try_decode(bad_connect), Decoded::Error(DecodeError::MalformedBody)));
    assert!(matches!(try_decode(&[0x20, 0x02, 0x00, 0x06]), Decoded::Error(DecodeError::MalformedBody)));
}

#[test]
fn header_and_packet_entry_points() {
    let h = parse_fixed_header_anyhow(&[0x82, 0x05]).unwrap();
    assert_eq!(h.packet_type, PacketType::Subscribe);
    assert_eq!(h.remaining_length, 5);
    assert_eq!(parse_fixed_header_anyhow(&[0x82]), Err(DecodeError::Incomplete));
    assert!(matches!(parse_packet_anyhow(&[0xC0, 0x00]), Ok(MqttPacket::PingReq(_))));
    assert!(matches!(parse_packet_anyhow(&[0xC0]), Err(DecodeError::Incomplete)));
}

#[test]
fn read_keeps_following_bytes() {
    let mut buf = vec![0xC0, 0x00, 0xD0, 0x00, 0xE0];
    assert!(matches!(MqttPacket::read(&mut buf), Ok(MqttPacket::PingReq(_))));
    assert_eq!(buf, vec![0xD0, 0x00, 0xE0]);
    assert!(matches!(MqttPacket::read(&mut buf), Ok(MqttPacket::PingResp(_))));
    assert_eq!(MqttPacket::read(&mut buf).err(), Some(DecodeError::Incomplete));
    assert_eq!(buf, vec![0xE0]);
}

#[test]
fn packet_type_and_return_code_values() {
    assert_eq!(PacketType::from_u8(3), Some(PacketType::Publish));
    assert_eq!(PacketType::from_u8(0), None);
    assert_eq!(PacketType::from_u8(15), None);
    assert_eq!(PacketType::Disconnect.code(), 14);
    assert_eq!(ConnectReturnCode::from_u8(5), Some(ConnectReturnCode::RefusedNotAuthorized));
    assert_eq!(ConnectReturnCode::from_u8(6), None);
}

#[test]
fn publish_flag_rules_enforced_in_body_parser() {
    let body = vec![0x00, 0x01, b'a', 0x00, 0x01];
    assert_eq!(parse_publish(&body, 0x06).err(), Some(DecodeError::MalformedBody));
    assert_eq!(parse_publish(&body, 0x08).err(), Some(DecodeError::MalformedBody));
    assert!(parse_publish_anyhow(&body, 0x02).is_ok());
    assert!(parse_publish_anyhow(&body, 0x0E).is_err());
}

#[test]
fn connect_will_qos_three_is_malformed() {
    let mut body = vec![0x00, 0x04, b'M', b'Q', b'T', b'T', 0x04, 0x1C, 0x00, 0x3C, 0x00, 0x01, b'c'];
    body.extend_from_slice(&[0x00, 0x01, b't', 0x00, 0x01, b'm']);
    assert_eq!(parse_connect(&body).err(), Some(DecodeError::MalformedBody));
    body[7] = 0x0C;
    let c = parse_connect_anyhow(&body).expect("will qos 1 is fine");
    assert_eq!(c.will_topic, Some("t".to_string()));
}

#[test]
fn subscribe_anyhow_parses() {
    let p = parse_subscribe_anyhow(b"\x00\x05\x00\x01x\x01").unwrap();
    assert_eq!(p.packet_id, 5);
    assert_eq!(p.topics, vec![("x".to_string(), 1)]);
}

#[test]
fn publish_with_id_mismatch_is_not_encodable() {
    let p = MqttPacket::Publish(PublishPacket {
        dup: false,
        qos: 1,
        retain: false,
        topic_name: "t".to_string(),
        packet_id: None,
        payload: vec![],
    });
    assert!(!p.is_encodable());
}
