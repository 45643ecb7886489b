use mqtt_adapt::connection::{
    clean_session, will_message, connect_return_code, keepalive_timeout_ms, read_packets, step, ClientState,
    ConnectionAction, ConnectionEvent,
};
use mqtt_adapt::codec::serialize_packet;
use mqtt_adapt::decode::DecodeError;
use mqtt_adapt::packet::{ConnectPacket, ConnectReturnCode, MqttPacket, PacketType, PubAckPacket, PingReqPacket};
use mqtt_adapt::qos::{QoSManager, QosError};

fn connect_packet(name: &str, level: u8, id: &str, user: Option<&str>) -> ConnectPacket {
    ConnectPacket {
        protocol_name: name.to_string(),
        protocol_level: level,
        connect_flags: if user.is_some() { 0x82 } else { 0x02 },
        keep_alive: 60,
        client_id: id.to_string(),
        will_topic: None,
        will_message: None,
        username: user.map(|u| u.to_string()),
        password: None,
    }
}

#[test]
fn connect_codes() {
    assert_eq!(connect_return_code(&connect_packet("MQTT", 4, "c", None), false, true), ConnectReturnCode::Accepted);
    assert_eq!(connect_return_code(&connect_packet("MQIsdp", 3, "c", None), false, true), ConnectReturnCode::RefusedBadProtocolVersion);
    assert_eq!(connect_return_code(&connect_packet("MQTT", 5, "c", None), false, true), ConnectReturnCode::RefusedBadProtocolVersion);
    assert_eq!(connect_return_code(&connect_packet("MQTT", 4, "", None), false, true), ConnectReturnCode::RefusedIdentifierRejected);
    assert_eq!(connect_return_code(&connect_packet("MQTT", 4, "c", Some("u")), false, true), ConnectReturnCode::RefusedBadUsernameOrPassword);
    assert_eq!(connect_return_code(&connect_packet("MQTT", 4, "c", Some("u")), true, false), ConnectReturnCode::Accepted);
    assert_eq!(connect_return_code(&connect_packet("MQTT", 4, "c", None), true, false), ConnectReturnCode::RefusedNotAuthorized);
}

#[test]
fn keepalive_timeouts() {
    assert_eq!(keepalive_timeout_ms(0), 90000);
    assert_eq!(keepalive_timeout_ms(10), 15000);
    assert_eq!(keepalive_timeout_ms(65535), 98302500);
}

#[test]
fn state_machine_steps() {
    assert_eq!(step(ClientState::AwaitingConnect, ConnectionEvent::Packet(PacketType::Connect)), (ClientState::Connected, ConnectionAction::HandleConnect));
    assert_eq!(step(ClientState::AwaitingConnect, ConnectionEvent::Packet(PacketType::Publish)), (ClientState::Disconnected, ConnectionAction::CloseClean));
    assert_eq!(step(ClientState::AwaitingConnect, ConnectionEvent::Timeout), (ClientState::Disconnected, ConnectionAction::CloseClean));
    assert_eq!(step(ClientState::Connected, ConnectionEvent::Packet(PacketType::Publish)), (ClientState::Connected, ConnectionAction::Forward));
    assert_eq!(step(ClientState::Connected, ConnectionEvent::Packet(PacketType::Disconnect)), (ClientState::Disconnected, ConnectionAction::CloseClean));
    assert_eq!(step(ClientState::Connected, ConnectionEvent::SocketClosed), (ClientState::Disconnected, ConnectionAction::CloseAbnormal));
    assert_eq!(step(ClientState::Connected, ConnectionEvent::Timeout), (ClientState::Disconnected, ConnectionAction::CloseAbnormal));
    assert_eq!(step(ClientState::Connected, ConnectionEvent::Displaced), (ClientState::Disconnected, ConnectionAction::CloseClean));
    assert_eq!(step(ClientState::Disconnected, ConnectionEvent::Malformed), (ClientState::Disconnected, ConnectionAction::Ignore));
}

#[test]
fn framer_one_byte_at_a_time() {
    let mut stream = serialize_packet(&MqttPacket::PingReq(PingReqPacket));
    stream.extend(serialize_packet(&MqttPacket::PubAck(PubAckPacket { packet_id: 300 })));
    stream.extend(serialize_packet(&MqttPacket::Connect(connect_packet("MQTT", 4, "abc", None))));
    let mut buffer: Vec<u8> = Vec::new();
    let mut got: Vec<MqttPacket> = Vec::new();
    for b in stream {
        buffer.push(b);
        let (ps, err) = read_packets(&mut buffer);
        assert!(err.is_none());
        got.extend(ps);
    }
    assert!(buffer.is_empty());
    assert_eq!(got.len(), 3);
    assert!(matches!(got[0], MqttPacket::PingReq(_)));
    assert!(matches!(got[1], MqttPacket::PubAck(a) if a.packet_id == 300));
    assert!(matches!(&got[2], MqttPacket::Connect(c) if c.client_id == "abc"));
}

#[test]
fn framer_stops_at_malformed() {
    let mut buffer = vec![0xC0, 0x00, 0x00, 0x00, 0xC0, 0x00];
    let (ps, err) = read_packets(&mut buffer);
    assert_eq!(ps.len(), 1);
    assert_eq!(err, Some(DecodeError::InvalidPacketType));
    assert_eq!(buffer, vec![0x00, 0x00, 0xC0, 0x00]);
}

#[test]
fn packet_ids_skip_in_flight_and_wrap() {
    let mut q = QoSManager::new();
    assert_eq!(q.next_packet_id(), Ok(1));
    let p = mqtt_adapt::packet::PublishPacket {
        dup: false, qos: 1, retain: false, topic_name: "t".to_string(), packet_id: Some(2), payload: vec![],
    };
    q.store_outgoing(2, p.clone());
    assert_eq!(q.next_packet_id(), Ok(3));
    assert!(q.remove_outgoing(2).is_some());
    assert!(q.remove_outgoing(2).is_none());
    assert!(q.store_incoming_qos2(5, p.clone()));
    assert!(!q.store_incoming_qos2(5, p.clone()));
    assert!(q.remove_incoming_qos2(5).is_some());
    assert!(q.remove_incoming_qos2(5).is_none());
}

#[test]
fn packet_ids_exhausted() {
    let mut q = QoSManager::new();
    let p = mqtt_adapt::packet::PublishPacket {
        dup: false, qos: 1, retain: false, topic_name: "t".to_string(), packet_id: None, payload: vec![],
    };
    for id in 1..=65535u16 {
        q.store_outgoing(id, p.clone());
    }
    assert_eq!(q.next_packet_id(), Err(QosError::FlowControlExhausted));
    q.remove_outgoing(40000);
    assert_eq!(q.next_packet_id(), Ok(40000));
    q.store_outgoing(40000, p.clone());
    q.remove_outgoing(7);
    assert_eq!(q.next_packet_id(), Ok(7));
}

#[test]
fn will_and_clean_session_from_flags() {
    let mut c = connect_packet("MQTT", 4, "c", None);
    c.connect_flags = 0x36;
    c.will_topic = Some("bye".to_string());
    c.will_message = Some(b"gone".to_vec());
    let w = will_message(&c).expect("will present");
    assert_eq!(w.topic_name, "bye");
    assert_eq!(w.payload, b"gone".to_vec());
    assert_eq!(w.qos, 2);
    assert!(w.retain);
    assert!(w.packet_id.is_none());
    assert!(clean_session(&c));
    c.connect_flags = 0x00;
    assert!(!clean_session(&c));
    c.will_topic = None;
    assert!(will_message(&c).is_none());
}
