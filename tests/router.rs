use mqtt_adapt::packet::{
    MqttPacket, PingReqPacket, PubAckPacket, PubCompPacket, PubRecPacket, PubRelPacket,
    PublishPacket, SubscribePacket, UnsubscribePacket, ConnectReturnCode,
};
use mqtt_adapt::router::{Event, MessageRouter, Outbound};

fn connect(r: &mut MessageRouter, id: &str, clean: bool) -> Vec<Outbound> {
    r.handle_event(Event::ClientConnected(id.to_string(), clean, None))
}

fn recv(r: &mut MessageRouter, id: &str, p: MqttPacket) -> Vec<Outbound> {
    r.handle_event(Event::MessageReceived(id.to_string(), p))
}

fn subscribe(r: &mut MessageRouter, id: &str, filter: &str, qos: u8) -> Vec<Outbound> {
    recv(r, id, MqttPacket::Subscribe(SubscribePacket { packet_id: 1, topics: vec![(filter.to_string(), qos)] }))
}

fn publish(topic: &str, qos: u8, pid: Option<u16>, retain: bool, payload: &[u8]) -> MqttPacket {
    MqttPacket::Publish(PublishPacket {
        dup: false,
        qos,
        retain,
        topic_name: topic.to_string(),
        packet_id: pid,
        payload: payload.to_vec(),
    })
}

fn publishes_to(out: &[Outbound], id: &str) -> Vec<PublishPacket> {
    out.iter()
        .filter_map(|o| match o {
            Outbound::MessageSent(c, MqttPacket::Publish(p)) if c == id => Some(p.clone()),
            _ => None,
        })
        .collect()
}

#[test]
fn simple_pub_sub() {
    let mut r = MessageRouter::new();
    connect(&mut r, "c1", true);
    subscribe(&mut r, "c1", "a/b", 0);
    connect(&mut r, "c2", true);
    let out = recv(&mut r, "c2", publish("a/b", 0, None, false, b"hello"));
    assert_eq!(out.len(), 1);
    let p = &publishes_to(&out, "c1")[0];
    assert_eq!(p.topic_name, "a/b");
    assert_eq!(p.qos, 0);
    assert_eq!(p.payload, b"hello".to_vec());
}

#[test]
fn wildcard_and_qos_downgrade() {
    let mut r = MessageRouter::new();
    connect(&mut r, "c1", true);
    subscribe(&mut r, "c1", "sport/+/score", 1);
    connect(&mut r, "c2", true);
    let out = recv(&mut r, "c2", publish("sport/tennis/score", 2, Some(7), false, b"40-0"));
    assert_eq!(out.len(), 1);
    assert!(matches!(&out[0], Outbound::MessageSent(c, MqttPacket::PubRec(a)) if c == "c2" && a.packet_id == 7));
    let out = recv(&mut r, "c2", MqttPacket::PubRel(PubRelPacket { packet_id: 7 }));
    let delivered = publishes_to(&out, "c1");
    assert_eq!(delivered.len(), 1);
    assert_eq!(delivered[0].qos, 1);
    assert!(!delivered[0].retain);
    assert!(delivered[0].packet_id.is_some());
    assert!(matches!(out.last(), Some(Outbound::MessageSent(c, MqttPacket::PubComp(a))) if c == "c2" && a.packet_id == 7));
    let pid = delivered[0].packet_id.unwrap();
    let out = recv(&mut r, "c1", MqttPacket::PubAck(PubAckPacket { packet_id: pid }));
    assert!(out.is_empty());
}

#[test]
fn qos2_duplicates_fan_out_once() {
    let mut r = MessageRouter::new();
    connect(&mut r, "sub", true);
    subscribe(&mut r, "sub", "q", 2);
    connect(&mut r, "pub", true);
    for _ in 0..3 {
        let out = recv(&mut r, "pub", publish("q", 2, Some(9), false, b"x"));
        assert_eq!(out.len(), 1);
        assert!(matches!(&out[0], Outbound::MessageSent(_, MqttPacket::PubRec(a)) if a.packet_id == 9));
    }
    let out = recv(&mut r, "pub", MqttPacket::PubRel(PubRelPacket { packet_id: 9 }));
    assert_eq!(publishes_to(&out, "sub").len(), 1);
    let out = recv(&mut r, "pub", MqttPacket::PubRel(PubRelPacket { packet_id: 9 }));
    assert_eq!(out.len(), 1);
    assert!(matches!(&out[0], Outbound::MessageSent(_, MqttPacket::PubComp(a)) if a.packet_id == 9));
}

#[test]
fn retained_message_replay_and_clear() {
    let mut r = MessageRouter::new();
    connect(&mut r, "c1", true);
    let out = recv(&mut r, "c1", publish("cfg/x", 1, Some(3), true, b"v1"));
    assert!(matches!(out.last(), Some(Outbound::MessageSent(_, MqttPacket::PubAck(a))) if a.packet_id == 3));
    r.handle_event(Event::ClientDisconnected("c1".to_string(), false));
    connect(&mut r, "c2", true);
    let out = subscribe(&mut r, "c2", "cfg/#", 0);
    assert!(matches!(&out[0], Outbound::MessageSent(_, MqttPacket::SubAck(s)) if s.return_codes == vec![0]));
    let replay = publishes_to(&out, "c2");
    assert_eq!(replay.len(), 1);
    assert_eq!(replay[0].topic_name, "cfg/x");
    assert_eq!(replay[0].qos, 0);
    assert!(replay[0].retain);
    assert_eq!(replay[0].payload, b"v1".to_vec());
    connect(&mut r, "c3", true);
    recv(&mut r, "c3", publish("cfg/x", 0, None, true, b""));
    connect(&mut r, "c4", true);
    let out = subscribe(&mut r, "c4", "cfg/#", 0);
    assert_eq!(out.len(), 1);
}

#[test]
fn session_resumption_delivers_offline_messages() {
    let mut r = MessageRouter::new();
    connect(&mut r, "c", false);
    subscribe(&mut r, "c", "n", 1);
    r.handle_event(Event::ClientDisconnected("c".to_string(), false));
    connect(&mut r, "p", true);
    recv(&mut r, "p", publish("n", 1, Some(1), false, b"m1"));
    recv(&mut r, "p", publish("n", 1, Some(2), false, b"m2"));
    let out = connect(&mut r, "c", false);
    assert!(matches!(&out[0], Outbound::MessageSent(_, MqttPacket::ConnAck(a)) if a.session_present && a.return_code == ConnectReturnCode::Accepted));
    let msgs = publishes_to(&out, "c");
    assert_eq!(msgs.len(), 2);
    assert_eq!(msgs[0].payload, b"m1".to_vec());
    assert_eq!(msgs[1].payload, b"m2".to_vec());
    assert_eq!(msgs[0].qos, 1);
    assert_ne!(msgs[0].packet_id, msgs[1].packet_id);
    for m in msgs {
        let out = recv(&mut r, "c", MqttPacket::PubAck(PubAckPacket { packet_id: m.packet_id.unwrap() }));
        assert!(out.is_empty());
    }
}

#[test]
fn duplicate_connect_closes_first() {
    let mut r = MessageRouter::new();
    connect(&mut r, "x", false);
    let out = connect(&mut r, "x", false);
    assert!(matches!(&out[0], Outbound::Close(c) if c == "x"));
    assert!(matches!(&out[1], Outbound::MessageSent(_, MqttPacket::ConnAck(a)) if a.session_present));
}

#[test]
fn will_published_on_abnormal_disconnect_only() {
    let mut r = MessageRouter::new();
    connect(&mut r, "c2", true);
    subscribe(&mut r, "c2", "bye", 0);
    let will = PublishPacket {
        dup: false,
        qos: 0,
        retain: false,
        topic_name: "bye".to_string(),
        packet_id: None,
        payload: b"gone".to_vec(),
    };
    r.handle_event(Event::ClientConnected("c1".to_string(), true, Some(will.clone())));
    let out = r.handle_event(Event::ClientDisconnected("c1".to_string(), true));
    let got = publishes_to(&out, "c2");
    assert_eq!(got.len(), 1);
    assert_eq!(got[0].payload, b"gone".to_vec());
    r.handle_event(Event::ClientConnected("c3".to_string(), true, Some(will)));
    let out = r.handle_event(Event::ClientDisconnected("c3".to_string(), false));
    assert!(publishes_to(&out, "c2").is_empty());
}

#[test]
fn ping_unsubscribe_and_pubrec() {
    let mut r = MessageRouter::new();
    connect(&mut r, "c", true);
    let out = recv(&mut r, "c", MqttPacket::PingReq(PingReqPacket));
    assert!(matches!(&out[..], [Outbound::MessageSent(_, MqttPacket::PingResp(_))]));
    subscribe(&mut r, "c", "t", 0);
    let out = recv(&mut r, "c", MqttPacket::Unsubscribe(UnsubscribePacket { packet_id: 4, topics: vec!["t".to_string()] }));
    assert!(matches!(&out[..], [Outbound::MessageSent(_, MqttPacket::UnsubAck(a))] if a.packet_id == 4));
    connect(&mut r, "p", true);
    assert!(recv(&mut r, "p", publish("t", 0, None, false, b"x")).is_empty());
    let out = recv(&mut r, "c", MqttPacket::PubRec(PubRecPacket { packet_id: 8 }));
    assert!(matches!(&out[..], [Outbound::MessageSent(_, MqttPacket::PubRel(a))] if a.packet_id == 8));
    assert!(recv(&mut r, "c", MqttPacket::PubComp(PubCompPacket { packet_id: 8 })).is_empty());
}

#[test]
fn subscribe_codes_per_filter() {
    let mut r = MessageRouter::new();
    connect(&mut r, "c", true);
    let out = recv(&mut r, "c", MqttPacket::Subscribe(SubscribePacket {
        packet_id: 2,
        topics: vec![("a".to_string(), 1), ("b/#/c".to_string(), 0), ("d".to_string(), 3)],
    }));
    assert!(matches!(&out[0], Outbound::MessageSent(_, MqttPacket::SubAck(s)) if s.packet_id == 2 && s.return_codes == vec![1, 0x80, 2]));
}

#[test]
fn invalid_publish_closes_connection() {
    let mut r = MessageRouter::new();
    connect(&mut r, "c", true);
    let out = recv(&mut r, "c", publish("a/+", 0, None, false, b"x"));
    assert!(matches!(&out[..], [Outbound::Close(c)] if c == "c"));
}

#[test]
fn test_multiple_subscribers_downgrade() {
    let mut r = MessageRouter::new();
    connect(&mut r, "s0", true);
    connect(&mut r, "s1", true);
    connect(&mut r, "s2", true);
    subscribe(&mut r, "s0", "test/qos", 0);
    subscribe(&mut r, "s1", "test/qos", 1);
    subscribe(&mut r, "s2", "test/qos", 2);
    connect(&mut r, "p", true);
    let out = recv(&mut r, "p", publish("test/qos", 1, Some(5), false, b"m"));
    assert_eq!(publishes_to(&out, "s0")[0].qos, 0);
    assert_eq!(publishes_to(&out, "s1")[0].qos, 1);
    assert_eq!(publishes_to(&out, "s2")[0].qos, 1);
    assert!(publishes_to(&out, "s0")[0].packet_id.is_none());
}

#[test]
fn clean_reconnect_reports_no_session() {
    let mut r = MessageRouter::new();
    connect(&mut r, "c", false);
    r.handle_event(Event::ClientDisconnected("c".to_string(), false));
    let out = connect(&mut r, "c", true);
    assert!(matches!(&out[0], Outbound::MessageSent(_, MqttPacket::ConnAck(a)) if !a.session_present));
}

#[test]
fn pubcomp_and_puback_emit_nothing() {
    let mut r = MessageRouter::new();
    connect(&mut r, "c", true);
    assert!(recv(&mut r, "c", MqttPacket::PubComp(PubCompPacket { packet_id: 3 })).is_empty());
    assert!(recv(&mut r, "c", MqttPacket::PubAck(PubAckPacket { packet_id: 3 })).is_empty());
}
