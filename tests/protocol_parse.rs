use mqtt_adapt::decode::{
    parse_body, parse_connack, parse_connect, parse_disconnect, parse_fixed_header, parse_ping_req,
    parse_ping_resp, parse_pubcomp, parse_publish, parse_pubrec, parse_pubrel, parse_puback,
    parse_suback, parse_subscribe, parse_unsuback, parse_unsubscribe,
};
use mqtt_adapt::codec::serialize_packet;
use mqtt_adapt::packet::{
    ConnAckPacket, ConnectPacket, ConnectReturnCode, MqttPacket, PacketType, PublishPacket,
};

fn put_u16(buf: &mut Vec<u8>, v: u16) {
    buf.extend_from_slice(&v.to_be_bytes());
}

#[test]
fn test_fixed_header_parse() {
    let buffer: Vec<u8> = vec![0x10, 0x04];
    let result = parse_fixed_header(&buffer);
    assert!(result.is_ok());
    let (header, _) = result.unwrap();
    assert_eq!(header.packet_type, PacketType::Connect);
    assert_eq!(header.flags, 0x00);
    assert_eq!(header.remaining_length, 4);
}

#[test]
fn test_connect_packet_parse() {
    let mut buffer = Vec::new();
    put_u16(&mut buffer, 4);
    buffer.extend_from_slice(b"MQTT");
    buffer.push(4);
    buffer.push(0x02);
    put_u16(&mut buffer, 60);
    put_u16(&mut buffer, 11);
    buffer.extend_from_slice(b"test_client");
    let result = parse_connect(&buffer);
    assert!(result.is_ok());
    let packet = result.unwrap();
    assert_eq!(packet.protocol_name, "MQTT");
    assert_eq!(packet.protocol_level, 4);
    assert_eq!(packet.client_id, "test_client");
}

#[test]
fn test_connack_packet_parse() {
    let buffer: Vec<u8> = vec![0x00, 0x00];
    let result = parse_connack(&buffer);
    assert!(result.is_ok());
    let packet = result.unwrap();
    assert!(!packet.session_present);
    assert_eq!(packet.return_code.code(), 0x00);
}

#[test]
fn test_publish_packet_parse() {
    let mut buffer = Vec::new();
    put_u16(&mut buffer, 10);
    buffer.extend_from_slice(b"test/topic");
    buffer.extend_from_slice(b"test payload");
    let result = parse_publish(&buffer, 0x00);
    assert!(result.is_ok());
    let packet = result.unwrap();
    assert_eq!(packet.topic_name, "test/topic");
    assert_eq!(packet.payload, b"test payload".to_vec());
    assert_eq!(packet.qos, 0);
}

#[test]
fn test_puback_packet_parse() {
    let mut buffer = Vec::new();
    put_u16(&mut buffer, 1234);
    let result = parse_puback(&buffer);
    assert!(result.is_ok());
    assert_eq!(result.unwrap().packet_id, 1234);
}

#[test]
fn test_pubrec_packet_parse() {
    let mut buffer = Vec::new();
    put_u16(&mut buffer, 5678);
    let result = parse_pubrec(&buffer);
    assert!(result.is_ok());
    assert_eq!(result.unwrap().packet_id, 5678);
}

#[test]
fn test_pubrel_packet_parse() {
    let mut buffer = Vec::new();
    put_u16(&mut buffer, 9012);
    let result = parse_pubrel(&buffer);
    assert!(result.is_ok());
    assert_eq!(result.unwrap().packet_id, 9012);
}

#[test]
fn test_pubcomp_packet_parse() {
    let mut buffer = Vec::new();
    put_u16(&mut buffer, 3456);
    let result = parse_pubcomp(&buffer);
    assert!(result.is_ok());
    assert_eq!(result.unwrap().packet_id, 3456);
}

#[test]
fn test_subscribe_packet_parse() {
    let mut buffer = Vec::new();
    put_u16(&mut buffer, 7890);
    put_u16(&mut buffer, 10);
    buffer.extend_from_slice(b"test/topic");
    buffer.push(0x01);
    let result = parse_subscribe(&buffer);
    assert!(result.is_ok());
    let packet = result.unwrap();
    assert_eq!(packet.packet_id, 7890);
    assert_eq!(packet.topics.len(), 1);
    assert_eq!(packet.topics[0].0, "test/topic");
    assert_eq!(packet.topics[0].1, 1);
}

#[test]
fn test_suback_packet_parse() {
    let mut buffer = Vec::new();
    put_u16(&mut buffer, 1111);
    buffer.push(0x01);
    let result = parse_suback(&buffer);
    assert!(result.is_ok());
    let packet = result.unwrap();
    assert_eq!(packet.packet_id, 1111);
    assert_eq!(packet.return_codes, vec![1]);
}

#[test]
fn test_unsubscribe_packet_parse() {
    let mut buffer = Vec::new();
    put_u16(&mut buffer, 2222);
    put_u16(&mut buffer, 10);
    buffer.extend_from_slice(b"test/topic");
    let result = parse_unsubscribe(&buffer);
    assert!(result.is_ok());
    let packet = result.unwrap();
    assert_eq!(packet.packet_id, 2222);
    assert_eq!(packet.topics.len(), 1);
    assert_eq!(packet.topics[0], "test/topic");
}

#[test]
fn test_unsuback_packet_parse() {
    let mut buffer = Vec::new();
    put_u16(&mut buffer, 3333);
    let result = parse_unsuback(&buffer);
    assert!(result.is_ok());
    assert_eq!(result.unwrap().packet_id, 3333);
}

#[test]
fn test_pingreq_packet_parse() {
    let buffer: Vec<u8> = Vec::new();
    assert!(parse_ping_req(&buffer).is_ok());
}

#[test]
fn test_pingresp_packet_parse() {
    let buffer: Vec<u8> = Vec::new();
    assert!(parse_ping_resp(&buffer).is_ok());
}

#[test]
fn test_disconnect_packet_parse() {
    let buffer: Vec<u8> = Vec::new();
    assert!(parse_disconnect(&buffer).is_ok());
}

#[test]
fn test_packet_serialization() {
    let connect_packet = ConnectPacket {
        protocol_name: "MQTT".to_string(),
        protocol_level: 4,
        connect_flags: 0x02,
        keep_alive: 60,
        client_id: "test_client".to_string(),
        will_topic: None,
        will_message: None,
        username: None,
        password: None,
    };
    let buffer = serialize_packet(&MqttPacket::Connect(connect_packet));
    assert!(!buffer.is_empty());

    let connack_packet = ConnAckPacket {
        session_present: false,
        return_code: ConnectReturnCode::Accepted,
    };
    let buffer = serialize_packet(&MqttPacket::ConnAck(connack_packet));
    assert!(!buffer.is_empty());

    let publish_packet = PublishPacket {
        dup: false,
        qos: 0,
        retain: false,
        topic_name: "test/topic".to_string(),
        packet_id: None,
        payload: b"test payload".to_vec(),
    };
    let buffer = serialize_packet(&MqttPacket::Publish(publish_packet));
    assert!(!buffer.is_empty());
}

#[test]
fn test_mqtt_packet_read() {
    let mut buffer = vec![0x10, 0x17];
    put_u16(&mut buffer, 4);
    buffer.extend_from_slice(b"MQTT");
    buffer.push(4);
    buffer.push(0x02);
    put_u16(&mut buffer, 60);
    put_u16(&mut buffer, 11);
    buffer.extend_from_slice(b"test_client");
    let result = MqttPacket::read(&mut buffer);
    assert!(result.is_ok());
    match result.unwrap() {
        MqttPacket::Connect(_) => {}
        _ => panic!("Expected CONNECT packet"),
    }
}

#[test]
fn test_connect_packet_with_credentials() {
    let mut buffer = Vec::new();
    put_u16(&mut buffer, 4);
    buffer.extend_from_slice(b"MQTT");
    buffer.push(4);
    buffer.push(0xC2);
    put_u16(&mut buffer, 60);
    put_u16(&mut buffer, 11);
    buffer.extend_from_slice(b"test_client");
    put_u16(&mut buffer, 8);
    buffer.extend_from_slice(b"username");
    put_u16(&mut buffer, 8);
    buffer.extend_from_slice(b"password");
    let result = parse_connect(&buffer);
    assert!(result.is_ok());
    let packet = result.unwrap();
    assert_eq!(packet.protocol_name, "MQTT");
    assert_eq!(packet.client_id, "test_client");
    assert_eq!(packet.username, Some("username".to_string()));
    assert_eq!(packet.password, Some(b"password".to_vec()));
}

#[test]
fn test_connect_packet_with_will() {
    let mut buffer = Vec::new();
    put_u16(&mut buffer, 4);
    buffer.extend_from_slice(b"MQTT");
    buffer.push(4);
    buffer.push(0x06);
    put_u16(&mut buffer, 60);
    put_u16(&mut buffer, 11);
    buffer.extend_from_slice(b"test_client");
    put_u16(&mut buffer, 10);
    buffer.extend_from_slice(b"will/topic");
    put_u16(&mut buffer, 12);
    buffer.extend_from_slice(b"will message");
    let result = parse_connect(&buffer);
    assert!(result.is_ok());
    let packet = result.unwrap();
    assert_eq!(packet.protocol_name, "MQTT");
    assert_eq!(packet.client_id, "test_client");
    assert_eq!(packet.will_topic, Some("will/topic".to_string()));
    assert_eq!(packet.will_message, Some(b"will message".to_vec()));
}

#[test]
fn test_publish_packet_qos1() {
    let mut buffer = Vec::new();
    put_u16(&mut buffer, 10);
    buffer.extend_from_slice(b"test/topic");
    put_u16(&mut buffer, 1234);
    buffer.extend_from_slice(b"test payload");
    let result = parse_publish(&buffer, 0x02);
    assert!(result.is_ok());
    let packet = result.unwrap();
    assert_eq!(packet.topic_name, "test/topic");
    assert_eq!(packet.payload, b"test payload".to_vec());
    assert_eq!(packet.qos, 1);
    assert_eq!(packet.packet_id, Some(1234));
}

#[test]
fn test_subscribe_packet_multiple_topics() {
    let mut buffer = Vec::new();
    put_u16(&mut buffer, 7890);
    put_u16(&mut buffer, 11);
    buffer.extend_from_slice(b"test/topic1");
    buffer.push(0x01);
    put_u16(&mut buffer, 11);
    buffer.extend_from_slice(b"test/topic2");
    buffer.push(0x02);
    let result = parse_subscribe(&buffer);
    assert!(result.is_ok());
    let packet = result.unwrap();
    assert_eq!(packet.packet_id, 7890);
    assert_eq!(packet.topics.len(), 2);
    assert_eq!(packet.topics[0].0, "test/topic1");
    assert_eq!(packet.topics[0].1, 1);
    assert_eq!(packet.topics[1].0, "test/topic2");
    assert_eq!(packet.topics[1].1, 2);
}

#[test]
fn test_mqtt_packet_read_publish() {
    let mut buffer = vec![0x30, 0x1A];
    put_u16(&mut buffer, 10);
    buffer.extend_from_slice(b"test/topic");
    buffer.extend_from_slice(b"test payload message");
    let result = MqttPacket::read(&mut buffer);
    assert!(result.is_ok());
    match result.unwrap() {
        MqttPacket::Publish(_) => {}
        _ => panic!("Expected PUBLISH packet"),
    }
}

#[test]
fn test_packet_parse_error() {
    let mut buffer = Vec::new();
    put_u16(&mut buffer, 4);
    assert!(parse_connect(&buffer).is_err());

    let buffer: Vec<u8> = vec![0x10];
    assert!(parse_fixed_header(&buffer).is_err());
}

#[test]
fn parse_body_dispatches_on_kind() {
    let body: Vec<u8> = vec![0x00, 0x07];
    match parse_body(PacketType::PubAck, 0, &body) {
        Ok(MqttPacket::PubAck(a)) => assert_eq!(a.packet_id, 7),
        other => panic!("unexpected {:?}", other),
    }
}
