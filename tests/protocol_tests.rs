use mqtt_adapt::codec::serialize_packet;
use mqtt_adapt::decode::{
    parse_connect, parse_disconnect, parse_fixed_header, parse_ping_req, parse_ping_resp,
    parse_puback, parse_publish, parse_suback, parse_subscribe, parse_unsuback,
    parse_unsubscribe, read_from_bytes_mut,
};
use mqtt_adapt::packet::{ConnectPacket, MqttPacket, PacketType};

const CONNECT_BYTES: &[u8] = b"\x10\x10\x00\x04MQTT\x04\x02\x00\x3c\x00\x04test";

#[test]
fn test_read_from_bytes_mut() {
    let mut buf = CONNECT_BYTES.to_vec();
    let packet = read_from_bytes_mut(&mut buf).expect("Failed to read packet");
    assert_eq!(packet.len(), CONNECT_BYTES.len());
    assert_eq!(packet, CONNECT_BYTES.to_vec());
    assert!(buf.is_empty());
}

#[test]
fn test_read_from_bytes_mut_partial() {
    let mut buf: Vec<u8> = Vec::new();
    buf.extend_from_slice(&CONNECT_BYTES[..5]);
    assert!(read_from_bytes_mut(&mut buf).is_none());
    buf.extend_from_slice(&CONNECT_BYTES[5..]);
    let packet = read_from_bytes_mut(&mut buf).expect("Failed to read packet");
    assert_eq!(packet.len(), CONNECT_BYTES.len());
    assert_eq!(packet, CONNECT_BYTES.to_vec());
}

#[test]
fn test_parse_fixed_header() {
    let data = b"\x10\x13";
    let result = parse_fixed_header(data);
    assert!(result.is_ok());
    let (header, _) = result.unwrap();
    assert_eq!(header.packet_type, PacketType::Connect);
    assert_eq!(header.flags, 0x00);
    assert_eq!(header.remaining_length, 0x13);
}

#[test]
fn test_parse_connect() {
    let data = b"\x00\x04MQTT\x04\x02\x00\x3c\x00\x04test";
    let result = parse_connect(data);
    assert!(result.is_ok());
    let packet = result.unwrap();
    assert_eq!(packet.protocol_name, "MQTT");
    assert_eq!(packet.protocol_level, 0x04);
    assert_eq!(packet.connect_flags, 0x02);
    assert_eq!(packet.keep_alive, 0x003c);
    assert_eq!(packet.client_id, "test");
    assert!(packet.will_topic.is_none());
    assert!(packet.will_message.is_none());
    assert!(packet.username.is_none());
    assert!(packet.password.is_none());
}

#[test]
fn test_parse_publish() {
    let data = b"\x00\x04testHello";
    let result = parse_publish(data, 0x00);
    assert!(result.is_ok());
    let packet = result.unwrap();
    assert_eq!(packet.dup, false);
    assert_eq!(packet.qos, 0);
    assert_eq!(packet.retain, false);
    assert_eq!(packet.topic_name, "test");
    assert!(packet.packet_id.is_none());
    assert_eq!(packet.payload, b"Hello".to_vec());
}

#[test]
fn test_parse_publish_with_packet_id() {
    let data = b"\x00\x04test\x00\x01Hello";
    let result = parse_publish(data, 0x02);
    assert!(result.is_ok());
    let packet = result.unwrap();
    assert_eq!(packet.dup, false);
    assert_eq!(packet.qos, 1);
    assert_eq!(packet.retain, false);
    assert_eq!(packet.topic_name, "test");
    assert_eq!(packet.packet_id, Some(1));
    assert_eq!(packet.payload, b"Hello".to_vec());
}

#[test]
fn test_parse_puback() {
    let data = b"\x00\x01";
    let result = parse_puback(data);
    assert!(result.is_ok());
    assert_eq!(result.unwrap().packet_id, 0x0001);
}

#[test]
fn test_parse_subscribe() {
    let data = b"\x00\x01\x00\x04test\x01";
    let result = parse_subscribe(data);
    assert!(result.is_ok());
    let packet = result.unwrap();
    assert_eq!(packet.packet_id, 0x0001);
    assert_eq!(packet.topics.len(), 1);
    assert_eq!(packet.topics[0].0, "test");
    assert_eq!(packet.topics[0].1, 0x01);
}

#[test]
fn test_parse_suback() {
    let data = b"\x00\x01\x00";
    let result = parse_suback(data);
    assert!(result.is_ok());
    let packet = result.unwrap();
    assert_eq!(packet.packet_id, 0x0001);
    assert_eq!(packet.return_codes.len(), 1);
    assert_eq!(packet.return_codes[0], 0x00);
}

#[test]
fn test_parse_unsubscribe() {
    let data = b"\x00\x01\x00\x04test";
    let result = parse_unsubscribe(data);
    assert!(result.is_ok());
    let packet = result.unwrap();
    assert_eq!(packet.packet_id, 0x0001);
    assert_eq!(packet.topics.len(), 1);
    assert_eq!(packet.topics[0], "test");
}

#[test]
fn test_parse_unsuback() {
    let data = b"\x00\x01";
    let result = parse_unsuback(data);
    assert!(result.is_ok());
    assert_eq!(result.unwrap().packet_id, 0x0001);
}

#[test]
fn test_parse_ping_req() {
    assert!(parse_ping_req(b"").is_ok());
}

#[test]
fn test_parse_ping_resp() {
    assert!(parse_ping_resp(b"").is_ok());
}

#[test]
fn test_parse_disconnect() {
    assert!(parse_disconnect(b"").is_ok());
}

#[test]
fn test_serialize_packet() {
    let connect_packet = ConnectPacket {
        protocol_name: "MQTT".to_string(),
        protocol_level: 4,
        connect_flags: 2,
        keep_alive: 60,
        client_id: "test".to_string(),
        will_topic: None,
        will_message: None,
        username: None,
        password: None,
    };
    let packet = MqttPacket::Connect(connect_packet);
    let serialized = serialize_packet(&packet);
    assert!(!serialized.is_empty());
    assert_eq!(serialized[0], 0x10);
}
