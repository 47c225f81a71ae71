use pubsub_broker::{Msg, ProtoAck, ProtoBroker, ProtoMsg, ProtoTopic, Topic};

#[test]
fn msg_new_keeps_payload_and_draws_id() {
    let m = Msg::new("hello");
    assert_eq!(m.payload, "hello");
    assert_eq!(m.id.chars().count(), 36);
}

#[test]
fn msg_proto_round_trip() {
    let m = Msg::new("payload");
    let p = m.to_proto();
    assert_eq!(p.id, m.id);
    assert_eq!(p.payload, "payload");
    let back = Msg::from_proto(p);
    assert_eq!(back.id, m.id);
    assert_eq!(back.payload, "payload");
}

#[test]
fn topic_new_is_empty() {
    let t = Topic::new("news");
    assert_eq!(t.name, "news");
    assert!(t.subscribers.is_empty());
    assert!(t.msgs.is_empty());
}

#[test]
fn topic_proto_round_trip() {
    let mut t = Topic::new("news");
    t.subscribe("c1");
    t.subscribe("c2");
    t.push_msg(Msg::new("one"));
    let p = t.to_proto();
    assert_eq!(p.name, "news");
    assert_eq!(p.subscribers, vec!["c1".to_string(), "c2".to_string()]);
    assert_eq!(p.msgs.len(), 1);
    let back = Topic::from_proto(p);
    assert_eq!(back.name, "news");
    assert_eq!(back.subscribers, vec!["c1".to_string(), "c2".to_string()]);
    assert_eq!(back.msgs.len(), 1);
    assert_eq!(back.msgs[0].payload, "one");
}

#[test]
fn from_proto_drops_duplicate_subscribers() {
    let p = ProtoTopic {
        name: "t".to_string(),
        subscribers: vec!["a".to_string(), "b".to_string(), "a".to_string()],
        msgs: vec![],
    };
    let t = Topic::from_proto(p);
    assert_eq!(t.subscribers, vec!["a".to_string(), "b".to_string()]);
}

#[test]
fn from_proto_drops_duplicate_topic_names_keeping_the_first() {
    let p = ProtoBroker {
        topics: vec![
            ProtoTopic {
                name: "t".to_string(),
                subscribers: vec!["a".to_string()],
                msgs: vec![ProtoMsg { id: "m1".to_string(), payload: "first".to_string() }],
            },
            ProtoTopic { name: "t".to_string(), subscribers: vec![], msgs: vec![] },
        ],
        acked_msgs: vec![
            ProtoAck { msg_id: "m1".to_string(), clients: vec!["a".to_string(), "a".to_string()] },
        ],
    };
    let b = pubsub_broker::Broker::from_proto(p);
    assert_eq!(b.topics.len(), 1);
    assert_eq!(b.topics[0].subscribers, vec!["a".to_string()]);
    assert_eq!(b.topics[0].msgs.len(), 1);
    assert_eq!(b.acked_msgs.len(), 1);
    assert_eq!(b.acked_msgs[0].clients, vec!["a".to_string()]);
}

#[test]
fn topic_subscribe_and_unsubscribe() {
    let mut t = Topic::new("x");
    t.subscribe("c1");
    t.subscribe("c1");
    assert_eq!(t.subscribers, vec!["c1".to_string()]);
    assert!(t.is_subscribed("c1"));
    t.unsubscribe("c1");
    assert!(!t.is_subscribed("c1"));
    assert!(t.subscribers.is_empty());
    // unsubscribing an absent client is a quiet no-op
    t.unsubscribe("c1");
    assert!(t.subscribers.is_empty());
}

#[test]
fn message_without_ack_record_is_treated_unacked() {
    // a wire state can carry a message that has no acknowledgment record;
    // fetch must treat it as unacknowledged
    let p = ProtoBroker {
        topics: vec![ProtoTopic {
            name: "t".to_string(),
            subscribers: vec!["c1".to_string()],
            msgs: vec![ProtoMsg { id: "orphan".to_string(), payload: "p".to_string() }],
        }],
        acked_msgs: vec![],
    };
    let b = pubsub_broker::Broker::from_proto(p);
    let msgs = b.fetch("c1");
    assert_eq!(msgs.len(), 1);
    assert_eq!(msgs[0].id, "orphan");
}
