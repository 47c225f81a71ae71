//! Laws of the broker: properties that relate several operations, stated
//! over the spec-level operations that the executable functions are proved
//! to implement.

use vstd::prelude::*;

use crate::broker::{
    create_topic_spec, fetch_spec, subscribe_spec, topic_names, unsubscribe_spec, BrokerErrorView,
    BrokerView,
};
use crate::proto::{lemma_normalize_identity, normalize_broker};
use crate::topic::{count_str, lemma_count_unique, lemma_remove_str, unique_strs, TopicView};

verus! {

/// Creating a topic that does not yet exist succeeds; creating it again at
/// once fails with `TopicAlreadyExists` for that name and changes nothing.
pub proof fn lemma_create_topic_twice(bv: BrokerView, name: Seq<char>)
    requires
        !bv.has_topic(name),
    ensures
        create_topic_spec(bv, name) matches Ok(bv1) && create_topic_spec(bv1, name)
            == Err::<BrokerView, BrokerErrorView>(BrokerErrorView::TopicAlreadyExists(name)),
{
    let bv1 = create_topic_spec(bv, name)->Ok_0;
    assert(bv1.topics.last().name == name);
    assert(topic_names(bv1.topics)[bv.topics.len() as int] == name);
    assert(bv1.has_topic(name));
}

/// Subscribing is idempotent: a second identical subscribe returns the very
/// same state, and the client stands in the topic's subscriber list exactly
/// once.
pub proof fn lemma_subscribe_idempotent(bv: BrokerView, topic: Seq<char>, client: Seq<char>)
    requires
        bv.wf(),
        bv.has_topic(topic),
    ensures
        subscribe_spec(bv, topic, client) matches Ok(bv1) && subscribe_spec(bv1, topic, client)
            == Ok::<BrokerView, BrokerErrorView>(bv1) && count_str(
            bv1.topic_at(topic).subscribers,
            client,
        ) == 1,
{
    let i = bv.topic_index(topic);
    assert(0 <= i < bv.topics.len() && bv.topics[i].name == topic) by {
        let w = choose|w: int| 0 <= w < bv.topics.len() && topic_names(bv.topics)[w] == topic;
        assert(bv.topics[w].name == topic);
    }
    let t0 = bv.topic_at(topic);
    let t1 = t0.with_subscriber(client);
    assert(t0.wf());
    assert(t1.subscribers.contains(client)) by {
        if !t0.subscribers.contains(client) {
            assert(t1.subscribers.last() == client);
            assert(t1.subscribers[t0.subscribers.len() as int] == client);
        }
    }
    assert(t1.wf()) by {
        if !t0.subscribers.contains(client) {
            assert forall|a: int, b: int|
                0 <= a < b < t1.subscribers.len() implies t1.subscribers[a]
                != t1.subscribers[b] by {
                if b == t1.subscribers.len() - 1 {
                    assert(t1.subscribers[b] == client);
                    assert(t0.subscribers[a] == t1.subscribers[a]);
                    if t0.subscribers[a] == client {
                        assert(t0.subscribers.contains(client));
                    }
                }
            }
        }
    }
    let bv1 = subscribe_spec(bv, topic, client)->Ok_0;
    assert(bv1.topics == bv.topics.update(i, t1));
    assert(topic_names(bv1.topics) =~= topic_names(bv.topics).update(i, t1.name));
    assert(topic_names(bv.topics).update(i, t1.name) =~= topic_names(bv.topics));
    assert(bv1.wf()) by {
        assert forall|a: int| 0 <= a < bv1.topics.len() implies (#[trigger] bv1.topics[a]).wf() by {
            if a != i {
                assert(bv1.topics[a] == bv.topics[a]);
            }
        }
    }
    assert(bv1.has_topic(topic)) by {
        assert(topic_names(bv1.topics)[i] == topic);
    }
    crate::broker::lemma_topic_index_of(bv1, i);
    assert(bv1.topic_index(topic) == i);
    assert(bv1.topic_at(topic) == t1);
    let t2 = t1.with_subscriber(client);
    assert(t2 == t1);
    assert(bv1.topics.update(i, t1) =~= bv1.topics);
    let bv2 = subscribe_spec(bv1, topic, client)->Ok_0;
    assert(bv2 =~= bv1);
    lemma_count_unique(t1.subscribers, client);
}

/// Unsubscribing a client that was never subscribed still succeeds, and
/// changes nothing at all.
pub proof fn lemma_unsubscribe_absent(bv: BrokerView, topic: Seq<char>, client: Seq<char>)
    requires
        bv.wf(),
        bv.has_topic(topic),
        !bv.topic_at(topic).subscribers.contains(client),
    ensures
        unsubscribe_spec(bv, topic, client) == Ok::<BrokerView, BrokerErrorView>(bv),
{
    let i = bv.topic_index(topic);
    assert(0 <= i < bv.topics.len() && bv.topics[i].name == topic) by {
        let w = choose|w: int| 0 <= w < bv.topics.len() && topic_names(bv.topics)[w] == topic;
        assert(bv.topics[w].name == topic);
    }
    let t0 = bv.topic_at(topic);
    let t1 = t0.without_subscriber(client);
    lemma_remove_str(t0.subscribers, client);
    assert(t1.subscribers =~= t0.subscribers);
    assert(t1 =~= t0);
    assert(bv.topics.update(i, t1) =~= bv.topics);
    let bv1 = unsubscribe_spec(bv, topic, client)->Ok_0;
    assert(bv1 =~= bv);
}

/// Round-trip law. [`crate::broker::Broker::snapshot`] of a well-formed
/// state yields exactly `enc_broker(bv)`, and
/// [`crate::broker::Broker::restore`] maps any buffer that starts with
/// `enc_broker(bv)` to `normalize_broker(bv)`. This lemma closes the loop:
/// for a well-formed state, normalization is the identity, so the restored
/// broker equals the one snapshotted — and `fetch` answers the same for
/// every client.
pub proof fn lemma_snapshot_round_trip(bv: BrokerView, client: Seq<char>)
    requires
        bv.wf(),
    ensures
        normalize_broker(bv) == bv,
        fetch_spec(normalize_broker(bv), client) == fetch_spec(bv, client),
{
    lemma_normalize_identity(bv);
}

} // verus!
