use pubsub_broker::{Broker, BrokerError};

#[test]
fn create_topic_then_duplicate_fails() {
    let mut b = Broker::new();
    assert!(b.create_topic("topic1").is_ok());
    let err = b.create_topic("topic1").unwrap_err();
    match &err {
        BrokerError::TopicAlreadyExists(name) => assert_eq!(name, "topic1"),
        _ => panic!("wrong error variant"),
    }
    assert_eq!(err.message(), "Topic 'topic1' already exists");
}

#[test]
fn subscribe_missing_topic_fails() {
    let mut b = Broker::new();
    let err = b.subscribe("nope", "c1").unwrap_err();
    match &err {
        BrokerError::TopicNotFound(name) => assert_eq!(name, "nope"),
        _ => panic!("wrong error variant"),
    }
    assert_eq!(err.message(), "Topic 'nope' not found");
    // no state mutation: creating the topic afterwards still succeeds
    assert!(b.create_topic("nope").is_ok());
}

#[test]
fn unsubscribe_missing_topic_fails() {
    let mut b = Broker::new();
    let err = b.unsubscribe("nope", "c1").unwrap_err();
    assert!(matches!(err, BrokerError::TopicNotFound(_)));
}

#[test]
fn post_missing_topic_fails() {
    let mut b = Broker::new();
    let err = b.post("nope", "hello").unwrap_err();
    assert!(matches!(err, BrokerError::TopicNotFound(_)));
    // nothing was created as a side effect
    assert!(b.fetch("c1").is_empty());
}

#[test]
fn ack_unknown_message_fails() {
    let mut b = Broker::new();
    let err = b.ack("no-such-id", "c1").unwrap_err();
    match &err {
        BrokerError::MessageNotFound(id) => assert_eq!(id, "no-such-id"),
        _ => panic!("wrong error variant"),
    }
    assert_eq!(err.message(), "Message 'no-such-id' not found");
}

#[test]
fn subscribe_twice_is_idempotent() {
    let mut b = Broker::new();
    b.create_topic("topic1").unwrap();
    b.subscribe("topic1", "c1").unwrap();
    b.subscribe("topic1", "c1").unwrap();
    let id = b.post("topic1", "hello").unwrap();
    // the client is subscribed once, so the message is fetched exactly once
    let msgs = b.fetch("c1");
    assert_eq!(msgs.len(), 1);
    assert_eq!(msgs[0].id, id);
    // the subscriber list itself holds the client exactly once
    assert_eq!(
        b.topics[0]
            .subscribers
            .iter()
            .filter(|s| s.as_str() == "c1")
            .count(),
        1
    );
}

#[test]
fn unsubscribe_never_subscribed_succeeds() {
    let mut b = Broker::new();
    b.create_topic("topic1").unwrap();
    assert!(b.unsubscribe("topic1", "ghost").is_ok());
}

#[test]
fn unsubscribe_stops_delivery() {
    let mut b = Broker::new();
    b.create_topic("topic1").unwrap();
    b.subscribe("topic1", "c1").unwrap();
    b.unsubscribe("topic1", "c1").unwrap();
    b.post("topic1", "hello").unwrap();
    assert!(b.fetch("c1").is_empty());
}

#[test]
fn post_fetch_ack_cycle() {
    // create; subscribe; post; fetch sees it; ack; fetch no longer does
    let mut b = Broker::new();
    b.create_topic("topic1").unwrap();
    b.subscribe("topic1", "c1").unwrap();
    let m1 = b.post("topic1", "hello").unwrap();
    let msgs = b.fetch("c1");
    assert_eq!(msgs.len(), 1);
    assert_eq!(msgs[0].id, m1);
    assert_eq!(msgs[0].payload, "hello");
    b.ack(&m1, "c1").unwrap();
    assert!(b.fetch("c1").is_empty());
}

#[test]
fn ack_is_per_client() {
    // two subscribers; one acks; only the other still sees the message
    let mut b = Broker::new();
    b.create_topic("topic1").unwrap();
    b.subscribe("topic1", "c1").unwrap();
    b.subscribe("topic1", "c2").unwrap();
    let m2 = b.post("topic1", "hi").unwrap();
    b.ack(&m2, "c1").unwrap();
    assert!(b.fetch("c1").is_empty());
    let msgs = b.fetch("c2");
    assert_eq!(msgs.len(), 1);
    assert_eq!(msgs[0].id, m2);
    assert_eq!(msgs[0].payload, "hi");
}

#[test]
fn ack_is_idempotent() {
    let mut b = Broker::new();
    b.create_topic("topic1").unwrap();
    b.subscribe("topic1", "c1").unwrap();
    let id = b.post("topic1", "x").unwrap();
    b.ack(&id, "c1").unwrap();
    b.ack(&id, "c1").unwrap();
    assert!(b.fetch("c1").is_empty());
    assert_eq!(
        b.acked_msgs[0]
            .clients
            .iter()
            .filter(|s| s.as_str() == "c1")
            .count(),
        1
    );
}

#[test]
fn fetch_unknown_client_is_empty() {
    let mut b = Broker::new();
    b.create_topic("topic1").unwrap();
    b.post("topic1", "hello").unwrap();
    assert!(b.fetch("nobody").is_empty());
}

#[test]
fn fetch_collects_across_topics_in_order() {
    let mut b = Broker::new();
    b.create_topic("a").unwrap();
    b.create_topic("b").unwrap();
    b.subscribe("a", "c1").unwrap();
    b.subscribe("b", "c1").unwrap();
    let m1 = b.post("a", "one").unwrap();
    let m2 = b.post("a", "two").unwrap();
    let m3 = b.post("b", "three").unwrap();
    let msgs = b.fetch("c1");
    assert_eq!(msgs.len(), 3);
    // grouped by topic order, then log order within a topic
    assert_eq!(msgs[0].id, m1);
    assert_eq!(msgs[1].id, m2);
    assert_eq!(msgs[2].id, m3);
}

#[test]
fn generated_ids_are_fresh_uuids() {
    let mut b = Broker::new();
    b.create_topic("t").unwrap();
    let a = b.post("t", "p1").unwrap();
    let c = b.post("t", "p2").unwrap();
    assert_eq!(a.chars().count(), 36);
    assert_eq!(c.chars().count(), 36);
    assert_ne!(a, c);
}
