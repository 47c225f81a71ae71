use pubsub_broker::{Broker, ProtoBroker};

#[test]
fn empty_broker_snapshot_is_two_zero_counts() {
    let b = Broker::new();
    let bytes = b.snapshot();
    // two empty lists: an eight-byte zero topic count, an eight-byte zero
    // acknowledgment count
    assert_eq!(bytes, vec![0u8; 16]);
}

#[test]
fn restore_of_empty_snapshot_is_empty() {
    let b = Broker::new();
    let bytes = b.snapshot();
    let r = Broker::restore(&bytes).unwrap();
    assert!(r.topics.is_empty());
    assert!(r.acked_msgs.is_empty());
}

#[test]
fn restore_of_truncated_snapshot_is_corrupt() {
    assert!(Broker::restore(&vec![1u8, 2, 3]).is_none());
}

#[test]
fn restore_of_overlong_length_is_corrupt() {
    // one topic claimed, but the name length points far past the buffer
    let mut bytes = vec![1u8, 0, 0, 0, 0, 0, 0, 0];
    bytes.extend_from_slice(&[255u8, 255, 255, 255, 255, 255, 255, 255]);
    assert!(Broker::restore(&bytes).is_none());
}

#[test]
fn restore_of_invalid_utf8_is_corrupt() {
    // one topic, name of length one, but the byte is not valid UTF-8
    let mut bytes = vec![1u8, 0, 0, 0, 0, 0, 0, 0];
    bytes.extend_from_slice(&[1u8, 0, 0, 0, 0, 0, 0, 0]);
    bytes.push(0xff);
    assert!(Broker::restore(&bytes).is_none());
}

#[test]
fn restart_keeps_unacked_message() {
    // persist a broker with one topic, one subscriber, one unacked message;
    // the restored broker serves the same message to the same subscriber
    let mut b = Broker::new();
    b.create_topic("topic1").unwrap();
    b.subscribe("topic1", "c1").unwrap();
    let id = b.post("topic1", "hello").unwrap();
    let bytes = b.snapshot();
    let r = Broker::restore(&bytes).unwrap();
    let msgs = r.fetch("c1");
    assert_eq!(msgs.len(), 1);
    assert_eq!(msgs[0].id, id);
    assert_eq!(msgs[0].payload, "hello");
}

#[test]
fn round_trip_preserves_fetch_for_every_client() {
    // a longer history: several topics, subscribers, posts and acks
    let mut b = Broker::new();
    b.create_topic("news").unwrap();
    b.create_topic("sport").unwrap();
    b.subscribe("news", "alice").unwrap();
    b.subscribe("news", "bob").unwrap();
    b.subscribe("sport", "bob").unwrap();
    let m1 = b.post("news", "headline").unwrap();
    let _m2 = b.post("news", "update").unwrap();
    let m3 = b.post("sport", "score").unwrap();
    b.ack(&m1, "alice").unwrap();
    b.ack(&m3, "bob").unwrap();
    b.unsubscribe("news", "alice").unwrap();

    let bytes = b.snapshot();
    let r = Broker::restore(&bytes).unwrap();
    for client in ["alice", "bob", "carol"] {
        let before: Vec<(String, String)> =
            b.fetch(client).into_iter().map(|m| (m.id, m.payload)).collect();
        let after: Vec<(String, String)> =
            r.fetch(client).into_iter().map(|m| (m.id, m.payload)).collect();
        assert_eq!(before, after);
    }
}

#[test]
fn round_trip_keeps_non_ascii_payloads() {
    // exercises the UTF-8 encoding and decoding through the codec
    let mut b = Broker::new();
    b.create_topic("mixt\u{00e9}").unwrap();
    b.subscribe("mixt\u{00e9}", "cl\u{00ef}ent").unwrap();
    let id = b.post("mixt\u{00e9}", "p\u{00e4}yload \u{2192} \u{1f600}").unwrap();
    let r = Broker::restore(&b.snapshot()).unwrap();
    let msgs = r.fetch("cl\u{00ef}ent");
    assert_eq!(msgs.len(), 1);
    assert_eq!(msgs[0].id, id);
    assert_eq!(msgs[0].payload, "p\u{00e4}yload \u{2192} \u{1f600}");
}

#[test]
fn wire_round_trip_through_records() {
    let mut b = Broker::new();
    b.create_topic("t").unwrap();
    b.subscribe("t", "c").unwrap();
    let id = b.post("t", "payload").unwrap();
    let proto = b.to_proto();
    let bytes = proto.encode();
    let decoded = ProtoBroker::decode(&bytes).unwrap();
    let back = Broker::from_proto(decoded);
    assert_eq!(back.topics.len(), 1);
    assert_eq!(back.topics[0].name, "t");
    assert_eq!(back.topics[0].subscribers, vec!["c".to_string()]);
    assert_eq!(back.topics[0].msgs.len(), 1);
    assert_eq!(back.topics[0].msgs[0].id, id);
    assert_eq!(back.topics[0].msgs[0].payload, "payload");
    assert_eq!(back.acked_msgs.len(), 1);
    assert_eq!(back.acked_msgs[0].msg_id, id);
    assert!(back.acked_msgs[0].clients.is_empty());
}
