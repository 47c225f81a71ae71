//! The broker core: the topic registry, the acknowledgment tracker, and the
//! six operations that mutate or query them.

use vstd::prelude::*;

use crate::msg::{Msg, MsgView};
use crate::topic::{contains_str, msg_views, str_views, unique_strs, Topic, TopicView};

verus! {

/// The closed set of failures a broker operation can report. Errors are pure
/// values returned to the caller, never faults.
#[derive(Debug)]
pub enum BrokerError {
    /// `create_topic` on a name that is already registered.
    TopicAlreadyExists(String),
    /// A topic-scoped operation on an unknown topic name.
    TopicNotFound(String),
    /// `ack` on a message identifier that was never posted.
    MessageNotFound(String),
}

/// Mathematical model of a [`BrokerError`].
#[verifier::ext_equal]
pub ghost enum BrokerErrorView {
    TopicAlreadyExists(Seq<char>),
    TopicNotFound(Seq<char>),
    MessageNotFound(Seq<char>),
}

impl View for BrokerError {
    type V = BrokerErrorView;

    open spec fn view(&self) -> BrokerErrorView {
        match self {
            BrokerError::TopicAlreadyExists(n) => BrokerErrorView::TopicAlreadyExists(n@),
            BrokerError::TopicNotFound(n) => BrokerErrorView::TopicNotFound(n@),
            BrokerError::MessageNotFound(n) => BrokerErrorView::MessageNotFound(n@),
        }
    }
}

impl BrokerErrorView {
    /// The human-readable description of the error.
    pub open spec fn message(self) -> Seq<char> {
        match self {
            BrokerErrorView::TopicAlreadyExists(n) => "Topic '"@ + n + "' already exists"@,
            BrokerErrorView::TopicNotFound(n) => "Topic '"@ + n + "' not found"@,
            BrokerErrorView::MessageNotFound(n) => "Message '"@ + n + "' not found"@,
        }
    }
}

impl BrokerError {
    /// Renders the error as its human-readable description.
    pub fn message(&self) -> (r: String)
        ensures
            r@ == self@.message(),
    {
        match self {
            BrokerError::TopicAlreadyExists(n) => {
                let s: String = "Topic '".to_owned();
                s.concat(n.as_str()).concat("' already exists")
            },
            BrokerError::TopicNotFound(n) => {
                let s: String = "Topic '".to_owned();
                s.concat(n.as_str()).concat("' not found")
            },
            BrokerError::MessageNotFound(n) => {
                let s: String = "Message '".to_owned();
                s.concat(n.as_str()).concat("' not found")
            },
        }
    }
}

/// The acknowledgment record of one message: the set of clients that have
/// acknowledged it, as a duplicate-free list.
#[derive(Debug, Clone)]
pub struct AckRecord {
    pub msg_id: String,
    pub clients: Vec<String>,
}

/// Mathematical model of an [`AckRecord`].
#[verifier::ext_equal]
pub ghost struct AckView {
    pub msg_id: Seq<char>,
    pub clients: Seq<Seq<char>>,
}

impl View for AckRecord {
    type V = AckView;

    open spec fn view(&self) -> AckView {
        AckView { msg_id: self.msg_id@, clients: str_views(self.clients@) }
    }
}

/// The views of a sequence of topics.
pub open spec fn topic_views(v: Seq<Topic>) -> Seq<TopicView> {
    v.map_values(|t: Topic| t@)
}

/// The views of a sequence of acknowledgment records.
pub open spec fn ack_views(v: Seq<AckRecord>) -> Seq<AckView> {
    v.map_values(|a: AckRecord| a@)
}

/// The names of a sequence of topics, in order.
pub open spec fn topic_names(ts: Seq<TopicView>) -> Seq<Seq<char>> {
    ts.map_values(|t: TopicView| t.name)
}

/// The message identifiers of a sequence of acknowledgment records, in order.
pub open spec fn ack_ids(acks: Seq<AckView>) -> Seq<Seq<char>> {
    acks.map_values(|a: AckView| a.msg_id)
}

/// Mathematical model of a [`Broker`]: the topic registry and the
/// acknowledgment tracker. Both are kept as sequences whose keys (topic
/// names, message identifiers) are unique, so each models a mapping.
#[verifier::ext_equal]
pub ghost struct BrokerView {
    pub topics: Seq<TopicView>,
    pub acks: Seq<AckView>,
}

impl BrokerView {
    /// Well-formed: topic names are unique, message identifiers in the
    /// tracker are unique, and every subscriber list and client list is
    /// duplicate-free.
    pub open spec fn wf(self) -> bool {
        &&& unique_strs(topic_names(self.topics))
        &&& forall|i: int| 0 <= i < self.topics.len() ==> (#[trigger] self.topics[i]).wf()
        &&& unique_strs(ack_ids(self.acks))
        &&& forall|i: int|
            0 <= i < self.acks.len() ==> unique_strs((#[trigger] self.acks[i]).clients)
    }

    /// Every message in every topic log has an acknowledgment record.
    pub open spec fn acks_complete(self) -> bool {
        forall|i: int, j: int|
            0 <= i < self.topics.len() && 0 <= j < self.topics[i].msgs.len() ==> self.has_ack(
                (#[trigger] self.topics[i].msgs[j]).id,
            )
    }

    /// Is a topic of this name registered?
    pub open spec fn has_topic(self, name: Seq<char>) -> bool {
        topic_names(self.topics).contains(name)
    }

    /// The index of the topic of this name (unique under `wf`).
    pub open spec fn topic_index(self, name: Seq<char>) -> int {
        choose|i: int| 0 <= i < self.topics.len() && self.topics[i].name == name
    }

    /// The topic of this name.
    pub open spec fn topic_at(self, name: Seq<char>) -> TopicView {
        self.topics[self.topic_index(name)]
    }

    /// This broker with the topic of name `name` replaced by `t`.
    pub open spec fn with_topic_replaced(self, name: Seq<char>, t: TopicView) -> BrokerView {
        BrokerView { topics: self.topics.update(self.topic_index(name), t), acks: self.acks }
    }

    /// Is there an acknowledgment record for this message identifier?
    pub open spec fn has_ack(self, msg_id: Seq<char>) -> bool {
        ack_ids(self.acks).contains(msg_id)
    }

    /// The index of the record for this message identifier (unique under
    /// `wf`).
    pub open spec fn ack_index(self, msg_id: Seq<char>) -> int {
        choose|i: int| 0 <= i < self.acks.len() && self.acks[i].msg_id == msg_id
    }

    /// The acknowledgment record for this message identifier.
    pub open spec fn ack_at(self, msg_id: Seq<char>) -> AckView {
        self.acks[self.ack_index(msg_id)]
    }
}

/// The tracker after (re)initializing the record of `msg_id` to an empty
/// client set: replaced in place when present, appended otherwise.
pub open spec fn set_empty_ack(acks: Seq<AckView>, msg_id: Seq<char>) -> Seq<AckView> {
    let fresh = AckView { msg_id, clients: Seq::empty() };
    if ack_ids(acks).contains(msg_id) {
        acks.update(choose|i: int| 0 <= i < acks.len() && acks[i].msg_id == msg_id, fresh)
    } else {
        acks.push(fresh)
    }
}

/// The effect of `create_topic`: a fresh empty topic is appended, unless the
/// name is taken.
pub open spec fn create_topic_spec(bv: BrokerView, name: Seq<char>) -> Result<
    BrokerView,
    BrokerErrorView,
> {
    if bv.has_topic(name) {
        Err(BrokerErrorView::TopicAlreadyExists(name))
    } else {
        Ok(
            BrokerView {
                topics: bv.topics.push(
                    TopicView { name, subscribers: Seq::empty(), msgs: Seq::empty() },
                ),
                acks: bv.acks,
            },
        )
    }
}

/// The effect of `subscribe`: the client is added to the topic's subscriber
/// set (a no-op when already subscribed), unless the topic is unknown.
pub open spec fn subscribe_spec(bv: BrokerView, topic: Seq<char>, client: Seq<char>) -> Result<
    BrokerView,
    BrokerErrorView,
> {
    if !bv.has_topic(topic) {
        Err(BrokerErrorView::TopicNotFound(topic))
    } else {
        Ok(bv.with_topic_replaced(topic, bv.topic_at(topic).with_subscriber(client)))
    }
}

/// The effect of `unsubscribe`: the client is removed from the topic's
/// subscriber set (a no-op when absent), unless the topic is unknown.
pub open spec fn unsubscribe_spec(bv: BrokerView, topic: Seq<char>, client: Seq<char>) -> Result<
    BrokerView,
    BrokerErrorView,
> {
    if !bv.has_topic(topic) {
        Err(BrokerErrorView::TopicNotFound(topic))
    } else {
        Ok(bv.with_topic_replaced(topic, bv.topic_at(topic).without_subscriber(client)))
    }
}

/// The effect of `post` with generated identifier `id`: the message is
/// appended to the topic's log and its acknowledgment record is initialized
/// empty, as one atomic step — unless the topic is unknown.
pub open spec fn post_spec(
    bv: BrokerView,
    topic: Seq<char>,
    payload: Seq<char>,
    id: Seq<char>,
) -> Result<BrokerView, BrokerErrorView> {
    if !bv.has_topic(topic) {
        Err(BrokerErrorView::TopicNotFound(topic))
    } else {
        Ok(
            BrokerView {
                topics: bv.topics.update(
                    bv.topic_index(topic),
                    bv.topic_at(topic).with_msg(MsgView { id, payload }),
                ),
                acks: set_empty_ack(bv.acks, id),
            },
        )
    }
}

/// The effect of `ack`: the client is added to the message's acknowledgment
/// record (a no-op when already there), unless the identifier is unknown.
pub open spec fn ack_spec(bv: BrokerView, msg_id: Seq<char>, client: Seq<char>) -> Result<
    BrokerView,
    BrokerErrorView,
> {
    if !bv.has_ack(msg_id) {
        Err(BrokerErrorView::MessageNotFound(msg_id))
    } else {
        let rec = bv.ack_at(msg_id);
        let clients = if rec.clients.contains(client) {
            rec.clients
        } else {
            rec.clients.push(client)
        };
        Ok(
            BrokerView {
                topics: bv.topics,
                acks: bv.acks.update(
                    bv.ack_index(msg_id),
                    AckView { msg_id: rec.msg_id, clients },
                ),
            },
        )
    }
}

/// Has `client` acknowledged the message with identifier `id`? A message
/// with no record counts as unacknowledged.
pub open spec fn acked_by(acks: Seq<AckView>, id: Seq<char>, client: Seq<char>) -> bool {
    exists|i: int| 0 <= i < acks.len() && acks[i].msg_id == id && acks[i].clients.contains(client)
}

/// The messages of one log that `client` has not acknowledged, in log order.
pub open spec fn unacked_in(msgs: Seq<MsgView>, acks: Seq<AckView>, client: Seq<char>) -> Seq<
    MsgView,
> {
    msgs.filter(|m: MsgView| !acked_by(acks, m.id, client))
}

/// The messages `fetch` returns from a sequence of topics: for each topic
/// where the client is subscribed, its unacknowledged messages in log order,
/// grouped in topic order.
pub open spec fn fetch_topics(
    ts: Seq<TopicView>,
    acks: Seq<AckView>,
    client: Seq<char>,
) -> Seq<MsgView>
    decreases ts.len(),
{
    if ts.len() == 0 {
        Seq::empty()
    } else {
        fetch_topics(ts.drop_last(), acks, client) + (if ts.last().subscribers.contains(client) {
            unacked_in(ts.last().msgs, acks, client)
        } else {
            Seq::empty()
        })
    }
}

/// The effect of `fetch`: everything `client` is subscribed to and has not
/// acknowledged. Never fails.
pub open spec fn fetch_spec(bv: BrokerView, client: Seq<char>) -> Seq<MsgView> {
    fetch_topics(bv.topics, bv.acks, client)
}

/// Under well-formedness, the index of a topic's name is the topic's own
/// position: names are unique, so lookup by name is a function.
pub proof fn lemma_topic_index_of(bv: BrokerView, i: int)
    requires
        bv.wf(),
        0 <= i < bv.topics.len(),
    ensures
        bv.has_topic(bv.topics[i].name),
        bv.topic_index(bv.topics[i].name) == i,
{
    let name = bv.topics[i].name;
    assert(topic_names(bv.topics)[i] == name);
    assert(bv.has_topic(name));
    assert(0 <= bv.topic_index(name) < bv.topics.len() && bv.topics[bv.topic_index(name)].name
        == name) by {
        assert(0 <= i < bv.topics.len() && bv.topics[i].name == name);
    }
    let j = bv.topic_index(name);
    if i != j {
        assert(topic_names(bv.topics)[j] == name);
        assert(false);
    }
}

/// Under well-formedness, the index of a record's message identifier is the
/// record's own position.
pub proof fn lemma_ack_index_of(bv: BrokerView, i: int)
    requires
        bv.wf(),
        0 <= i < bv.acks.len(),
    ensures
        bv.has_ack(bv.acks[i].msg_id),
        bv.ack_index(bv.acks[i].msg_id) == i,
{
    let id = bv.acks[i].msg_id;
    assert(ack_ids(bv.acks)[i] == id);
    assert(bv.has_ack(id));
    assert(0 <= bv.ack_index(id) < bv.acks.len() && bv.acks[bv.ack_index(id)].msg_id == id) by {
        assert(0 <= i < bv.acks.len() && bv.acks[i].msg_id == id);
    }
    let j = bv.ack_index(id);
    if i != j {
        assert(ack_ids(bv.acks)[j] == id);
        assert(false);
    }
}

impl AckRecord {
    /// Adds `client` to the record; a no-op when already present.
    fn add_client(&mut self, client: &str)
        requires
            unique_strs(old(self)@.clients),
        ensures
            final(self)@.msg_id == old(self)@.msg_id,
            final(self)@.clients == (if old(self)@.clients.contains(client@) {
                old(self)@.clients
            } else {
                old(self)@.clients.push(client@)
            }),
            unique_strs(final(self)@.clients),
    {
        if !contains_str(&self.clients, client) {
            let ghost before = self@;
            self.clients.push(client.to_owned());
            assert(str_views(self.clients@) =~= before.clients.push(client@));
        }
    }
}

/// The broker: the topic registry and the per-message acknowledgment
/// tracker. Both use sequences with unique keys as their store; the
/// well-formedness predicate [`BrokerView::wf`] is established by the
/// constructors and preserved by every operation.
#[derive(Debug, Clone)]
pub struct Broker {
    pub topics: Vec<Topic>,
    pub acked_msgs: Vec<AckRecord>,
}

impl View for Broker {
    type V = BrokerView;

    open spec fn view(&self) -> BrokerView {
        BrokerView { topics: topic_views(self.topics@), acks: ack_views(self.acked_msgs@) }
    }
}

/// The index of the topic named `name`, if any.
pub(crate) fn find_topic(topics: &Vec<Topic>, name: &str) -> (r: Option<usize>)
    ensures
        match r {
            Some(i) => i < topics@.len() && topic_views(topics@)[i as int].name == name@,
            None => !topic_names(topic_views(topics@)).contains(name@),
        },
{
    let key: String = name.to_owned();
    let mut i: usize = 0;
    while i < topics.len()
        invariant
            0 <= i <= topics.len(),
            key@ == name@,
            forall|k: int| 0 <= k < i ==> topic_names(topic_views(topics@))[k] != name@,
        decreases topics.len() - i,
    {
        if topics[i].name == key {
            assert(topic_views(topics@)[i as int].name == name@);
            return Some(i);
        }
        assert(topic_names(topic_views(topics@))[i as int] != name@);
        i += 1;
    }
    assert forall|k: int|
        0 <= k < topic_names(topic_views(topics@)).len() implies topic_names(topic_views(topics@))[k]
        != name@ by {}
    None
}

/// The index of the acknowledgment record for `msg_id`, if any.
pub(crate) fn find_ack(acks: &Vec<AckRecord>, msg_id: &str) -> (r: Option<usize>)
    ensures
        match r {
            Some(i) => i < acks@.len() && ack_views(acks@)[i as int].msg_id == msg_id@,
            None => !ack_ids(ack_views(acks@)).contains(msg_id@),
        },
{
    let key: String = msg_id.to_owned();
    let mut i: usize = 0;
    while i < acks.len()
        invariant
            0 <= i <= acks.len(),
            key@ == msg_id@,
            forall|k: int| 0 <= k < i ==> ack_ids(ack_views(acks@))[k] != msg_id@,
        decreases acks.len() - i,
    {
        if acks[i].msg_id == key {
            assert(ack_views(acks@)[i as int].msg_id == msg_id@);
            return Some(i);
        }
        assert(ack_ids(ack_views(acks@))[i as int] != msg_id@);
        i += 1;
    }
    None
}

impl Default for Broker {
    /// The empty broker, same as [`Broker::new`].
    fn default() -> (b: Broker)
        ensures
            b@ == (BrokerView { topics: Seq::empty(), acks: Seq::empty() }),
            b@.wf(),
    {
        Broker::new()
    }
}

impl Broker {
    /// A fresh broker: no topics, no acknowledgment records.
    pub fn new() -> (b: Broker)
        ensures
            b@ == (BrokerView { topics: Seq::empty(), acks: Seq::empty() }),
            b@.wf(),
            b@.acks_complete(),
    {
        let b = Broker { topics: Vec::new(), acked_msgs: Vec::new() };
        assert(b@.topics =~= Seq::<TopicView>::empty());
        assert(b@.acks =~= Seq::<AckView>::empty());
        assert(b@ =~= (BrokerView { topics: Seq::empty(), acks: Seq::empty() }));
        b
    }

    /// Registers a new topic with an empty subscriber set and an empty log.
    /// Fails, without any state change, when the name is already registered.
    pub fn create_topic(&mut self, name: &str) -> (r: Result<(), BrokerError>)
        requires
            old(self)@.wf(),
        ensures
            final(self)@.wf(),
            match r {
                Ok(_) => create_topic_spec(old(self)@, name@) matches Ok(bv) && final(self)@ == bv,
                Err(e) => {
                    &&& create_topic_spec(old(self)@, name@) matches Err(ev) && e@ == ev
                    &&& final(self)@ == old(self)@
                },
            },
            old(self)@.acks_complete() ==> final(self)@.acks_complete(),
    {
        let ghost before = self@;
        match find_topic(&self.topics, name) {
            Some(i) => {
                proof {
                    assert(topic_names(before.topics)[i as int] == name@);
                    assert(before.has_topic(name@));
                }
                Err(BrokerError::TopicAlreadyExists(name.to_owned()))
            },
            None => {
                let t = Topic::new(name);
                self.topics.push(t);
                proof {
                    let tv = TopicView {
                        name: name@,
                        subscribers: Seq::empty(),
                        msgs: Seq::empty(),
                    };
                    assert(topic_views(self.topics@) =~= before.topics.push(tv));
                    assert(final(self)@ =~= (BrokerView {
                        topics: before.topics.push(tv),
                        acks: before.acks,
                    }));
                    assert(topic_names(before.topics.push(tv)) =~= topic_names(
                        before.topics,
                    ).push(name@));
                    assert(final(self)@.wf());
                    if before.acks_complete() {
                        assert forall|i: int, j: int|
                            0 <= i < final(self)@.topics.len() && 0 <= j
                                < final(self)@.topics[i].msgs.len() implies final(self)@.has_ack(
                            (#[trigger] final(self)@.topics[i].msgs[j]).id,
                        ) by {
                            assert(i < before.topics.len());
                            assert(before.has_ack(before.topics[i].msgs[j].id));
                        }
                    }
                }
                Ok(())
            },
        }
    }

    /// Adds `client_id` to the subscriber set of `topic_name`. Idempotent:
    /// subscribing an already-subscribed client is a no-op success. Fails,
    /// without any state change, when the topic does not exist.
    pub fn subscribe(&mut self, topic_name: &str, client_id: &str) -> (r: Result<(), BrokerError>)
        requires
            old(self)@.wf(),
        ensures
            final(self)@.wf(),
            match r {
                Ok(_) => subscribe_spec(old(self)@, topic_name@, client_id@) matches Ok(bv)
                    && final(self)@ == bv,
                Err(e) => {
                    &&& subscribe_spec(old(self)@, topic_name@, client_id@) matches Err(ev) && e@
                        == ev
                    &&& final(self)@ == old(self)@
                },
            },
            old(self)@.acks_complete() ==> final(self)@.acks_complete(),
    {
        let ghost before = self@;
        match find_topic(&self.topics, topic_name) {
            None => Err(BrokerError::TopicNotFound(topic_name.to_owned())),
            Some(i) => {
                proof {
                    lemma_topic_index_of(before, i as int);
                }
                self.topics[i].subscribe(client_id);
                proof {
                    let t2 = before.topics[i as int].with_subscriber(client_id@);
                    assert(topic_views(self.topics@) =~= before.topics.update(i as int, t2));
                    assert(final(self)@ =~= (BrokerView {
                        topics: before.topics.update(i as int, t2),
                        acks: before.acks,
                    }));
                    assert(subscribe_spec(before, topic_name@, client_id@) matches Ok(bv) && final(self)@ =~= bv);
                    assert(topic_names(final(self)@.topics) =~= topic_names(before.topics));
                    assert(final(self)@.wf());
                    if before.acks_complete() {
                        assert(final(self)@.acks_complete()) by {
                            assert forall|a: int, j: int|
                                0 <= a < final(self)@.topics.len() && 0 <= j < final(self)@.topics[a].msgs.len() implies final(self)@.has_ack(
                                (#[trigger] final(self)@.topics[a].msgs[j]).id,
                            ) by {
                                assert(final(self)@.topics[a].msgs == before.topics[a].msgs);
                                assert(before.has_ack(before.topics[a].msgs[j].id));
                            }
                        }
                    }
                }
                Ok(())
            },
        }
    }

    /// Removes `client_id` from the subscriber set of `topic_name`.
    /// Idempotent: absence of the client is not an error. Fails, without any
    /// state change, when the topic does not exist.
    pub fn unsubscribe(&mut self, topic_name: &str, client_id: &str) -> (r: Result<
        (),
        BrokerError,
    >)
        requires
            old(self)@.wf(),
        ensures
            final(self)@.wf(),
            match r {
                Ok(_) => unsubscribe_spec(old(self)@, topic_name@, client_id@) matches Ok(bv)
                    && final(self)@ == bv,
                Err(e) => {
                    &&& unsubscribe_spec(old(self)@, topic_name@, client_id@) matches Err(ev) && e@
                        == ev
                    &&& final(self)@ == old(self)@
                },
            },
            old(self)@.acks_complete() ==> final(self)@.acks_complete(),
    {
        let ghost before = self@;
        match find_topic(&self.topics, topic_name) {
            None => Err(BrokerError::TopicNotFound(topic_name.to_owned())),
            Some(i) => {
                proof {
                    lemma_topic_index_of(before, i as int);
                }
                self.topics[i].unsubscribe(client_id);
                proof {
                    let t2 = before.topics[i as int].without_subscriber(client_id@);
                    assert(topic_views(self.topics@) =~= before.topics.update(i as int, t2));
                    assert(final(self)@ =~= (BrokerView {
                        topics: before.topics.update(i as int, t2),
                        acks: before.acks,
                    }));
                    assert(unsubscribe_spec(before, topic_name@, client_id@) matches Ok(bv)
                        && final(self)@ =~= bv);
                    assert(topic_names(final(self)@.topics) =~= topic_names(before.topics));
                    assert(final(self)@.wf());
                    if before.acks_complete() {
                        assert(final(self)@.acks_complete()) by {
                            assert forall|a: int, j: int|
                                0 <= a < final(self)@.topics.len() && 0 <= j < final(self)@.topics[a].msgs.len() implies final(self)@.has_ack(
                                (#[trigger] final(self)@.topics[a].msgs[j]).id,
                            ) by {
                                assert(final(self)@.topics[a].msgs == before.topics[a].msgs);
                                assert(before.has_ack(before.topics[a].msgs[j].id));
                            }
                        }
                    }
                }
                Ok(())
            },
        }
    }

    /// Posts a message: generates a fresh random identifier, appends the
    /// message to the topic's log and initializes its acknowledgment record
    /// empty, as one atomic step; the generated identifier is returned.
    /// Fails, without any state change, when the topic does not exist.
    pub fn post(&mut self, topic_name: &str, payload: &str) -> (r: Result<String, BrokerError>)
        requires
            old(self)@.wf(),
        ensures
            final(self)@.wf(),
            match r {
                Ok(id) => post_spec(old(self)@, topic_name@, payload@, id@) matches Ok(bv)
                    && final(self)@ == bv,
                Err(e) => {
                    &&& post_spec(old(self)@, topic_name@, payload@, Seq::empty()) matches Err(ev)
                        && e@ == ev
                    &&& final(self)@ == old(self)@
                },
            },
            old(self)@.acks_complete() ==> final(self)@.acks_complete(),
    {
        let ghost before = self@;
        match find_topic(&self.topics, topic_name) {
            None => Err(BrokerError::TopicNotFound(topic_name.to_owned())),
            Some(i) => {
                proof {
                    lemma_topic_index_of(before, i as int);
                }
                let m = Msg::new(payload);
                let id: String = m.id.clone();
                let ghost mv = m@;
                self.topics[i].push_msg(m);
                let ghost mid = self@;
                proof {
                    let t2 = before.topics[i as int].with_msg(mv);
                    assert(topic_views(self.topics@) =~= before.topics.update(i as int, t2));
                    assert(mid.topics =~= before.topics.update(i as int, t2));
                    assert(mid.acks == before.acks);
                }
                match find_ack(&self.acked_msgs, id.as_str()) {
                    Some(j) => {
                        self.acked_msgs[j] = AckRecord { msg_id: id.clone(), clients: Vec::new() };
                        proof {
                            let fresh = AckView { msg_id: id@, clients: Seq::empty() };
                            assert(str_views(Seq::<String>::empty()) =~= Seq::<Seq<char>>::empty());
                            assert(ack_views(self.acked_msgs@) =~= before.acks.update(
                                j as int,
                                fresh,
                            ));
                            assert(ack_ids(before.acks)[j as int] == id@);
                            lemma_ack_index_of(before, j as int);
                            assert(set_empty_ack(before.acks, id@) == before.acks.update(
                                j as int,
                                fresh,
                            ));
                        }
                    },
                    None => {
                        self.acked_msgs.push(AckRecord { msg_id: id.clone(), clients: Vec::new() });
                        proof {
                            let fresh = AckView { msg_id: id@, clients: Seq::empty() };
                            assert(str_views(Seq::<String>::empty()) =~= Seq::<Seq<char>>::empty());
                            assert(ack_views(self.acked_msgs@) =~= before.acks.push(fresh));
                            assert(set_empty_ack(before.acks, id@) == before.acks.push(fresh));
                        }
                    },
                }
                proof {
                    let spec_bv = post_spec(before, topic_name@, payload@, id@)->Ok_0;
                    assert(final(self)@ =~= spec_bv);
                    lemma_post_preserves_wf(before, topic_name@, payload@, id@);
                }
                Ok(id)
            },
        }
    }

    /// Adds `client_id` to the acknowledgment record of `msg_id`.
    /// Idempotent. Fails, without any state change, when no message with
    /// that identifier was ever posted.
    pub fn ack(&mut self, msg_id: &str, client_id: &str) -> (r: Result<(), BrokerError>)
        requires
            old(self)@.wf(),
        ensures
            final(self)@.wf(),
            match r {
                Ok(_) => ack_spec(old(self)@, msg_id@, client_id@) matches Ok(bv) && final(self)@
                    == bv,
                Err(e) => {
                    &&& ack_spec(old(self)@, msg_id@, client_id@) matches Err(ev) && e@ == ev
                    &&& final(self)@ == old(self)@
                },
            },
            old(self)@.acks_complete() ==> final(self)@.acks_complete(),
    {
        let ghost before = self@;
        match find_ack(&self.acked_msgs, msg_id) {
            None => Err(BrokerError::MessageNotFound(msg_id.to_owned())),
            Some(j) => {
                proof {
                    lemma_ack_index_of(before, j as int);
                }
                self.acked_msgs[j].add_client(client_id);
                proof {
                    let rec = before.acks[j as int];
                    let clients2 = if rec.clients.contains(client_id@) {
                        rec.clients
                    } else {
                        rec.clients.push(client_id@)
                    };
                    let rec2 = AckView { msg_id: rec.msg_id, clients: clients2 };
                    assert(ack_views(self.acked_msgs@) =~= before.acks.update(j as int, rec2));
                    assert(final(self)@ =~= (BrokerView {
                        topics: before.topics,
                        acks: before.acks.update(j as int, rec2),
                    }));
                    assert(ack_spec(before, msg_id@, client_id@) matches Ok(bv) && final(self)@
                        =~= bv);
                    assert(ack_ids(final(self)@.acks) =~= ack_ids(before.acks));
                    assert(final(self)@.wf());
                    if before.acks_complete() {
                        assert(final(self)@.acks_complete()) by {
                            assert forall|a: int, k: int|
                                0 <= a < final(self)@.topics.len() && 0 <= k < final(self)@.topics[a].msgs.len() implies final(self)@.has_ack(
                                (#[trigger] final(self)@.topics[a].msgs[k]).id,
                            ) by {
                                assert(before.has_ack(before.topics[a].msgs[k].id));
                            }
                        }
                    }
                }
                Ok(())
            },
        }
    }
}

/// One step of `unacked_in`: the last message of the log is kept exactly
/// when the client has not acknowledged it.
proof fn lemma_unacked_step(msgs: Seq<MsgView>, acks: Seq<AckView>, client: Seq<char>)
    requires
        msgs.len() > 0,
    ensures
        unacked_in(msgs, acks, client) == (if !acked_by(acks, msgs.last().id, client) {
            unacked_in(msgs.drop_last(), acks, client).push(msgs.last())
        } else {
            unacked_in(msgs.drop_last(), acks, client)
        }),
{
    reveal(Seq::filter);
}

/// Has `client` acknowledged message `msg_id`? A message with no record
/// counts as unacknowledged.
fn acked_lookup(acks: &Vec<AckRecord>, msg_id: &str, client: &str) -> (r: bool)
    requires
        unique_strs(ack_ids(ack_views(acks@))),
    ensures
        r == acked_by(ack_views(acks@), msg_id@, client@),
{
    let ghost av = ack_views(acks@);
    match find_ack(acks, msg_id) {
        None => {
            proof {
                if acked_by(av, msg_id@, client@) {
                    let i = choose|i: int|
                        0 <= i < av.len() && av[i].msg_id == msg_id@ && av[i].clients.contains(
                            client@,
                        );
                    assert(ack_ids(av)[i] == msg_id@);
                }
            }
            false
        },
        Some(j) => {
            let r = contains_str(&acks[j].clients, client);
            proof {
                if r {
                    assert(av[j as int].msg_id == msg_id@ && av[j as int].clients.contains(
                        client@,
                    ));
                } else if acked_by(av, msg_id@, client@) {
                    let i = choose|i: int|
                        0 <= i < av.len() && av[i].msg_id == msg_id@ && av[i].clients.contains(
                            client@,
                        );
                    if i != j {
                        assert(ack_ids(av)[i] == msg_id@ && ack_ids(av)[j as int] == msg_id@);
                        assert(false);
                    }
                }
            }
            r
        },
    }
}

impl Broker {
    /// Returns, in topic order and then log order, every message of every
    /// topic `client_id` is subscribed to that `client_id` has not yet
    /// acknowledged. Never fails.
    pub fn fetch(&self, client_id: &str) -> (r: Vec<Msg>)
        requires
            self@.wf(),
        ensures
            msg_views(r@) == fetch_spec(self@, client_id@),
    {
        let ghost bv = self@;
        let mut out: Vec<Msg> = Vec::new();
        assert(msg_views(out@) =~= Seq::<MsgView>::empty());
        assert(fetch_topics(bv.topics.take(0), bv.acks, client_id@) =~= Seq::<MsgView>::empty());
        let mut i: usize = 0;
        while i < self.topics.len()
            invariant
                self@ == bv,
                self@.wf(),
                0 <= i <= self.topics@.len(),
                bv.topics.len() == self.topics@.len(),
                msg_views(out@) =~= fetch_topics(bv.topics.take(i as int), bv.acks, client_id@),
            decreases self.topics@.len() - i,
        {
            let t = &self.topics[i];
            let ghost tv = bv.topics[i as int];
            let ghost seen = msg_views(out@);
            if t.is_subscribed(client_id) {
                let mut j: usize = 0;
                while j < t.msgs.len()
                    invariant
                        t@ == tv,
                        bv.acks == ack_views(self.acked_msgs@),
                        unique_strs(ack_ids(bv.acks)),
                        0 <= j <= t.msgs@.len(),
                        tv.msgs.len() == t.msgs@.len(),
                        msg_views(out@) =~= seen + unacked_in(
                            tv.msgs.take(j as int),
                            bv.acks,
                            client_id@,
                        ),
                    decreases t.msgs@.len() - j,
                {
                    let ghost pre = tv.msgs.take(j as int);
                    let ghost post = tv.msgs.take(j + 1int);
                    let m = &t.msgs[j];
                    let acked = acked_lookup(&self.acked_msgs, m.id.as_str(), client_id);
                    proof {
                        assert(post.drop_last() =~= pre);
                        assert(post.last() == tv.msgs[j as int]);
                        lemma_unacked_step(post, bv.acks, client_id@);
                    }
                    if !acked {
                        let c = m.clone();
                        let ghost out_pre = out@;
                        let ghost cv = c@;
                        out.push(c);
                        proof {
                            assert(unacked_in(post, bv.acks, client_id@) == unacked_in(
                                pre,
                                bv.acks,
                                client_id@,
                            ).push(m@));
                            assert(msg_views(out@) =~= msg_views(out_pre).push(cv));
                            assert(seen + unacked_in(post, bv.acks, client_id@) =~= (seen
                                + unacked_in(pre, bv.acks, client_id@)).push(m@));
                            assert(msg_views(out@) =~= seen + unacked_in(post, bv.acks, client_id@));
                        }
                    } else {
                        proof {
                            assert(unacked_in(post, bv.acks, client_id@) == unacked_in(
                                pre,
                                bv.acks,
                                client_id@,
                            ));
                        }
                    }
                    j += 1;
                }
                proof {
                    assert(tv.msgs.take(tv.msgs.len() as int) =~= tv.msgs);
                    assert(msg_views(out@) =~= seen + unacked_in(tv.msgs, bv.acks, client_id@));
                }
            }
            proof {
                let taken = bv.topics.take(i + 1int);
                assert(taken.drop_last() =~= bv.topics.take(i as int));
                assert(taken.last() == tv);
                if tv.subscribers.contains(client_id@) {
                    assert(msg_views(out@) =~= seen + unacked_in(tv.msgs, bv.acks, client_id@));
                } else {
                    assert(msg_views(out@) =~= seen + Seq::<MsgView>::empty());
                }
                assert(msg_views(out@) =~= fetch_topics(taken, bv.acks, client_id@));
            }
            i += 1;
        }
        proof {
            assert(bv.topics.take(bv.topics.len() as int) =~= bv.topics);
        }
        out
    }
}

/// `post` preserves well-formedness and acknowledgment completeness: the
/// updated topic keeps its name and subscriber set, and the tracker's
/// identifiers either stay as they were or gain the fresh one.
proof fn lemma_post_preserves_wf(
    bv: BrokerView,
    topic: Seq<char>,
    payload: Seq<char>,
    id: Seq<char>,
)
    requires
        bv.wf(),
        bv.has_topic(topic),
    ensures
        post_spec(bv, topic, payload, id) matches Ok(bv2) && bv2.wf() && (bv.acks_complete()
            ==> bv2.acks_complete()),
{
    let bv2 = post_spec(bv, topic, payload, id)->Ok_0;
    let i = bv.topic_index(topic);
    assert(0 <= i < bv.topics.len() && bv.topics[i].name == topic) by {
        let w = choose|w: int| 0 <= w < bv.topics.len() && topic_names(bv.topics)[w] == topic;
        assert(bv.topics[w].name == topic);
    }
    assert(topic_names(bv2.topics) =~= topic_names(bv.topics));
    if ack_ids(bv.acks).contains(id) {
        let j = choose|j: int| 0 <= j < bv.acks.len() && bv.acks[j].msg_id == id;
        assert(ack_ids(bv2.acks) =~= ack_ids(bv.acks));
    } else {
        assert(ack_ids(bv2.acks) =~= ack_ids(bv.acks).push(id));
        assert forall|a: int, b: int|
            0 <= a < b < ack_ids(bv2.acks).len() implies ack_ids(bv2.acks)[a] != ack_ids(
            bv2.acks,
        )[b] by {
            if b == ack_ids(bv2.acks).len() - 1 {
                assert(ack_ids(bv2.acks)[b] == id);
                if ack_ids(bv.acks)[a] == id {
                    assert(ack_ids(bv.acks).contains(id));
                }
            }
        }
    }
    assert(bv2.wf());
    if bv.acks_complete() {
        assert forall|a: int, k: int|
            0 <= a < bv2.topics.len() && 0 <= k < bv2.topics[a].msgs.len() implies bv2.has_ack(
            (#[trigger] bv2.topics[a].msgs[k]).id,
        ) by {
            let mid = bv2.topics[a].msgs[k].id;
            if a == i && k == bv2.topics[a].msgs.len() - 1 {
                assert(mid == id);
                lemma_set_empty_ack_has(bv.acks, id, mid);
            } else {
                assert(bv2.topics[a].msgs[k] == bv.topics[a].msgs[k]);
                assert(bv.has_ack(mid));
                lemma_set_empty_ack_has(bv.acks, id, mid);
            }
        }
    }
}

/// After `set_empty_ack(acks, id)` the tracker has a record for `id` and for
/// every identifier it had before.
proof fn lemma_set_empty_ack_has(acks: Seq<AckView>, id: Seq<char>, q: Seq<char>)
    requires
        q == id || ack_ids(acks).contains(q),
    ensures
        ack_ids(set_empty_ack(acks, id)).contains(q),
{
    let acks2 = set_empty_ack(acks, id);
    if ack_ids(acks).contains(id) {
        let j = choose|j: int| 0 <= j < acks.len() && acks[j].msg_id == id;
        assert(ack_ids(acks2) =~= ack_ids(acks));
        if q == id {
            assert(ack_ids(acks)[j] == id);
        }
    } else {
        assert(ack_ids(acks2) =~= ack_ids(acks).push(id));
        if q == id {
            assert(ack_ids(acks2)[acks.len() as int] == id);
        } else {
            let j = choose|j: int| 0 <= j < ack_ids(acks).len() && ack_ids(acks)[j] == q;
            assert(ack_ids(acks2)[j] == q);
        }
    }
}

} // verus!
