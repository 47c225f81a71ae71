//! A minimal publish/subscribe message broker.
//!
//! Clients create named topics, subscribe and unsubscribe, post messages,
//! acknowledge them, and fetch the messages they have not yet acknowledged.
//! The whole broker state can be serialized into a single snapshot and
//! restored from it.

pub mod broker;
pub mod codec;
pub mod laws;
pub mod msg;
pub mod proto;
pub mod topic;

pub use broker::AckRecord;
pub use broker::AckView;
pub use broker::Broker;
pub use broker::BrokerError;
pub use broker::BrokerErrorView;
pub use broker::BrokerView;
pub use laws::lemma_create_topic_twice;
pub use laws::lemma_snapshot_round_trip;
pub use laws::lemma_subscribe_idempotent;
pub use laws::lemma_unsubscribe_absent;
pub use msg::Msg;
pub use msg::MsgView;
pub use proto::ProtoAck;
pub use proto::ProtoBroker;
pub use proto::ProtoMsg;
pub use proto::ProtoTopic;
pub use topic::Topic;
pub use topic::TopicView;
