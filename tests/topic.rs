use mqtt_adapt::topic::{topic_matches_exec, TopicManager, TopicSubscription};

#[test]
fn sport_tennis_player1_wildcards() {
    let t = "sport/tennis/player1";
    assert!(topic_matches_exec(t, "sport/tennis/+"));
    assert!(topic_matches_exec(t, "sport/tennis/#"));
    assert!(topic_matches_exec(t, "sport/#"));
    assert!(topic_matches_exec(t, "#"));
    assert!(!topic_matches_exec(t, "sport/tennis"));
    assert!(!topic_matches_exec(t, "sport/+"));
}

#[test]
fn dollar_topics_not_matched_by_leading_wildcards() {
    let t = "$SYS/broker/uptime";
    assert!(!topic_matches_exec(t, "#"));
    assert!(!topic_matches_exec(t, "+/broker/uptime"));
    assert!(topic_matches_exec(t, "$SYS/#"));
    assert!(topic_matches_exec(t, "$SYS/broker/+"));
}

#[test]
fn hash_matches_parent_level() {
    assert!(topic_matches_exec("sport", "sport/#"));
    assert!(!topic_matches_exec("sports", "sport/#"));
    assert!(topic_matches_exec("a//b", "a/+/b"));
}

#[test]
fn filter_validation() {
    let tm = TopicManager::new();
    assert!(tm.is_valid_topic_filter("sport/+/score"));
    assert!(tm.is_valid_topic_filter("#"));
    assert!(tm.is_valid_topic_filter("a/#"));
    assert!(!tm.is_valid_topic_filter(""));
    assert!(!tm.is_valid_topic_filter("sensor+/x"));
    assert!(!tm.is_valid_topic_filter("a/#/b"));
    assert!(!tm.is_valid_topic_filter("a#"));
    assert!(!tm.is_valid_topic_filter("a\0b"));
    assert!(tm.is_valid_topic("a/b"));
    assert!(!tm.is_valid_topic("a/+"));
    assert!(!tm.is_valid_topic(""));
}

#[test]
fn topic_manager_test_topic_wildcard_matching() {
    let mut tm = TopicManager::new();
    assert!(tm.add_subscription("test/+/topic", "client1".to_string(), 0));
    assert!(tm.add_subscription("test/#", "client2".to_string(), 0));
    assert!(tm.add_subscription("+/specific/topic", "client3".to_string(), 0));
    let names = |v: Vec<mqtt_adapt::topic::TopicSubscription>| {
        let mut n: Vec<String> = v.into_iter().map(|s| s.client_id).collect();
        n.sort();
        n
    };
    assert_eq!(names(tm.find_subscribers("test/123/topic")), vec!["client1", "client2"]);
    assert_eq!(names(tm.find_subscribers("test/foo/bar/baz")), vec!["client2"]);
    assert_eq!(names(tm.find_subscribers("any/specific/topic")), vec!["client3"]);
    assert!(tm.find_subscribers("other/topic").is_empty());
}

#[test]
fn dedup_keeps_largest_qos() {
    let mut tm = TopicManager::new();
    tm.add_subscription("a/+", "c".to_string(), 0);
    tm.add_subscription("a/#", "c".to_string(), 2);
    tm.add_subscription("a/b", "d".to_string(), 1);
    let mut subs = tm.find_subscribers("a/b");
    subs.sort_by(|x, y| x.client_id.cmp(&y.client_id));
    assert_eq!(subs.len(), 2);
    assert_eq!((subs[0].client_id.as_str(), subs[0].qos), ("c", 2));
    assert_eq!((subs[1].client_id.as_str(), subs[1].qos), ("d", 1));
}

#[test]
fn resubscribe_overwrites_qos_and_unsubscribe_removes() {
    let mut tm = TopicManager::new();
    tm.add_subscription("x", "c".to_string(), 1);
    tm.add_subscription("x", "c".to_string(), 0);
    let subs = tm.find_subscribers("x");
    assert_eq!(subs.len(), 1);
    assert_eq!(subs[0].qos, 0);
    tm.remove_subscription("x", &"c".to_string());
    assert!(tm.find_subscribers("x").is_empty());
    assert!(!tm.add_subscription("bad/#/x", "c".to_string(), 0));
}

#[test]
fn subscription_edge_cases_deep_and_missing() {
    let mut tm = TopicManager::new();
    assert!(!tm.add_subscription("", "client1".to_string(), 0));
    assert!(tm.find_subscribers("").is_empty());
    let deep_topic = "a/b/c/d/e/f/g/h/i/j";
    tm.add_subscription(deep_topic, "client2".to_string(), 1);
    assert_eq!(tm.find_subscribers(deep_topic).len(), 1);
    tm.remove_subscription("test/topic", &"non_existent_client".to_string());
    tm.remove_subscription("non_existent_topic", &"client1".to_string());
    assert_eq!(tm.find_subscribers(deep_topic).len(), 1);
}

#[test]
fn test_retained_messages() {
    let mut tm = TopicManager::new();
    let payload1 = b"Hello, world!".to_vec();
    tm.store_retained_message("test/topic", payload1.clone(), 1);
    let retained_messages1 = tm.get_retained_messages("test/topic");
    assert_eq!(retained_messages1.len(), 1);
    assert_eq!(retained_messages1[0].topic, "test/topic");
    assert_eq!(retained_messages1[0].payload, payload1);
    assert_eq!(retained_messages1[0].qos, 1);
    tm.store_retained_message("test/topic", Vec::new(), 0);
    assert!(tm.get_retained_messages("test/topic").is_empty());
    let payload2 = b"Message 2".to_vec();
    let payload3 = b"Message 3".to_vec();
    tm.store_retained_message("sensor/1/data", payload2.clone(), 0);
    tm.store_retained_message("sensor/2/data", payload3.clone(), 1);
    let retained_messages3 = tm.get_retained_messages("sensor/1/data");
    assert_eq!(retained_messages3.len(), 1);
    assert_eq!(retained_messages3[0].payload, payload2);
    let retained_messages4 = tm.get_retained_messages("sensor/2/data");
    assert_eq!(retained_messages4.len(), 1);
    assert_eq!(retained_messages4[0].payload, payload3);
}

#[test]
fn retained_wildcards_and_invalid_topic() {
    let mut tm = TopicManager::new();
    tm.store_retained_message("sensor/1/data", b"a".to_vec(), 0);
    tm.store_retained_message("sensor/2/data", b"b".to_vec(), 0);
    assert_eq!(tm.get_retained_messages("sensor/+/data").len(), 2);
    tm.store_retained_message("sensor/1/data", Vec::new(), 0);
    let r = tm.get_retained_messages("sensor/#");
    assert_eq!(r.len(), 1);
    assert_eq!(r[0].topic, "sensor/2/data");
    assert!(!tm.store_retained_message("sensor/+", b"x".to_vec(), 0));
}

#[test]
fn topic_manager_test_multiple_subscribers() {
    let mut tm = TopicManager::new();
    tm.add_subscription("test/topic", "client1".to_string(), 0);
    tm.add_subscription("test/topic", "client2".to_string(), 1);
    tm.add_subscription("test/topic", "client3".to_string(), 2);
    let subscribers = tm.find_subscribers("test/topic");
    assert_eq!(subscribers.len(), 3);
    for subscriber in &subscribers {
        match subscriber.client_id.as_str() {
            "client1" => assert_eq!(subscriber.qos, 0),
            "client2" => assert_eq!(subscriber.qos, 1),
            "client3" => assert_eq!(subscriber.qos, 2),
            _ => panic!("Unexpected client ID: {}", subscriber.client_id),
        }
    }
    tm.remove_subscription("test/topic", &"client2".to_string());
    let after: Vec<String> = tm.find_subscribers("test/topic").iter().map(|s| s.client_id.clone()).collect();
    assert_eq!(after.len(), 2);
    assert!(!after.contains(&"client2".to_string()));
}

#[test]
fn test_different_qos_levels() {
    let mut tm = TopicManager::new();
    tm.add_subscription("test/qos", "client_qos0".to_string(), 0);
    tm.add_subscription("test/qos", "client_qos1".to_string(), 1);
    tm.add_subscription("test/qos", "client_qos2".to_string(), 2);
    let subscribers = tm.find_subscribers("test/qos");
    assert_eq!(subscribers.len(), 3);
    for subscriber in &subscribers {
        match subscriber.client_id.as_str() {
            "client_qos0" => assert_eq!(subscriber.qos, 0),
            "client_qos1" => assert_eq!(subscriber.qos, 1),
            "client_qos2" => assert_eq!(subscriber.qos, 2),
            _ => panic!("Unexpected client ID: {}", subscriber.client_id),
        }
    }
}

#[test]
fn remove_client_drops_all_its_subscriptions() {
    let mut tm = TopicManager::new();
    tm.add_subscription("a", "c".to_string(), 0);
    tm.add_subscription("b", "c".to_string(), 0);
    tm.add_subscription("a", "d".to_string(), 0);
    tm.remove_client(&"c".to_string());
    let subs = tm.find_subscribers("a");
    assert_eq!(subs.len(), 1);
    assert_eq!(subs[0].client_id, "d");
    assert!(tm.find_subscribers("b").is_empty());
}

#[test]
fn subscriptions_equal_by_client() {
    let a = TopicSubscription { client_id: "c".to_string(), qos: 0 };
    let b = TopicSubscription { client_id: "c".to_string(), qos: 2 };
    let c = TopicSubscription { client_id: "d".to_string(), qos: 0 };
    assert!(a == b);
    assert!(a != c);
}
