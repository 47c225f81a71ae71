//! The wire form of the broker state: plain records, free of any invariant,
//! that the snapshot codec reads and writes. Converting a broker to its wire
//! form keeps the state verbatim; converting back normalizes it, dropping
//! duplicate keys (which no snapshot written by this crate contains).

use vstd::prelude::*;

use crate::broker::{
    ack_ids, ack_views, topic_names, topic_views, AckRecord, AckView, Broker, BrokerView,
};
use crate::msg::{Msg, MsgView};
use crate::topic::{contains_str, msg_views, str_views, unique_strs, Topic, TopicView};

verus! {

/// Wire form of a [`Msg`].
pub struct ProtoMsg {
    pub id: String,
    pub payload: String,
}

impl View for ProtoMsg {
    type V = MsgView;

    open spec fn view(&self) -> MsgView {
        MsgView { id: self.id@, payload: self.payload@ }
    }
}

/// Wire form of a [`Topic`].
pub struct ProtoTopic {
    pub name: String,
    pub subscribers: Vec<String>,
    pub msgs: Vec<ProtoMsg>,
}

/// The views of a sequence of wire messages.
pub open spec fn proto_msg_views(v: Seq<ProtoMsg>) -> Seq<MsgView> {
    v.map_values(|m: ProtoMsg| m@)
}

impl View for ProtoTopic {
    type V = TopicView;

    open spec fn view(&self) -> TopicView {
        TopicView {
            name: self.name@,
            subscribers: str_views(self.subscribers@),
            msgs: proto_msg_views(self.msgs@),
        }
    }
}

/// Wire form of an [`AckRecord`].
pub struct ProtoAck {
    pub msg_id: String,
    pub clients: Vec<String>,
}

impl View for ProtoAck {
    type V = AckView;

    open spec fn view(&self) -> AckView {
        AckView { msg_id: self.msg_id@, clients: str_views(self.clients@) }
    }
}

/// Wire form of a [`Broker`]: the topic records and the acknowledgment
/// records, as plain lists.
pub struct ProtoBroker {
    pub topics: Vec<ProtoTopic>,
    pub acked_msgs: Vec<ProtoAck>,
}

/// The views of a sequence of wire topics.
pub open spec fn proto_topic_views(v: Seq<ProtoTopic>) -> Seq<TopicView> {
    v.map_values(|t: ProtoTopic| t@)
}

/// The views of a sequence of wire acknowledgment records.
pub open spec fn proto_ack_views(v: Seq<ProtoAck>) -> Seq<AckView> {
    v.map_values(|a: ProtoAck| a@)
}

impl View for ProtoBroker {
    type V = BrokerView;

    open spec fn view(&self) -> BrokerView {
        BrokerView {
            topics: proto_topic_views(self.topics@),
            acks: proto_ack_views(self.acked_msgs@),
        }
    }
}

/// The sequence with later duplicates dropped: the first occurrence of each
/// string is kept, in order.
pub open spec fn dedup_strs(s: Seq<Seq<char>>) -> Seq<Seq<char>>
    decreases s.len(),
{
    if s.len() == 0 {
        Seq::empty()
    } else {
        let d = dedup_strs(s.drop_last());
        if d.contains(s.last()) {
            d
        } else {
            d.push(s.last())
        }
    }
}

/// Deduplication yields a duplicate-free sequence with the same members,
/// and leaves a duplicate-free sequence unchanged.
pub proof fn lemma_dedup_strs(s: Seq<Seq<char>>)
    ensures
        unique_strs(dedup_strs(s)),
        forall|x: Seq<char>| #[trigger] dedup_strs(s).contains(x) <==> s.contains(x),
        unique_strs(s) ==> dedup_strs(s) =~= s,
    decreases s.len(),
{
    if s.len() == 0 {
        assert forall|x: Seq<char>| #[trigger] dedup_strs(s).contains(x) implies s.contains(x) by {}
        assert forall|x: Seq<char>| s.contains(x) implies #[trigger] dedup_strs(s).contains(x) by {}
    } else {
        lemma_dedup_strs(s.drop_last());
        let d = dedup_strs(s.drop_last());
        let r = dedup_strs(s);
        assert(s[s.len() - 1] == s.last());
        if !d.contains(s.last()) {
            assert forall|a: int, b: int| 0 <= a < b < r.len() implies r[a] != r[b] by {
                if b == r.len() - 1 {
                    assert(d.contains(r[a]));
                }
            }
        }
        assert forall|x: Seq<char>| #[trigger] r.contains(x) implies s.contains(x) by {
            if d.contains(x) {
                assert(s.drop_last().contains(x));
                let i = choose|i: int| 0 <= i < s.drop_last().len() && s.drop_last()[i] == x;
                assert(s[i] == x);
            } else {
                let i = choose|i: int| 0 <= i < r.len() && r[i] == x;
                assert(x == s.last());
            }
        }
        assert forall|x: Seq<char>| s.contains(x) implies #[trigger] r.contains(x) by {
            let i = choose|i: int| 0 <= i < s.len() && s[i] == x;
            if i < s.len() - 1 {
                assert(s.drop_last()[i] == x);
                assert(s.drop_last().contains(x));
                assert(d.contains(x));
                if !d.contains(s.last()) {
                    let j = choose|j: int| 0 <= j < d.len() && d[j] == x;
                    assert(r[j] == x);
                }
            } else {
                if d.contains(s.last()) {
                    assert(d.contains(x));
                } else {
                    assert(r[r.len() - 1] == x);
                }
            }
        }
        if unique_strs(s) {
            assert(unique_strs(s.drop_last()));
            assert(d =~= s.drop_last());
            assert(!s.drop_last().contains(s.last())) by {
                if s.drop_last().contains(s.last()) {
                    let i = choose|i: int|
                        0 <= i < s.drop_last().len() && s.drop_last()[i] == s.last();
                    assert(s[i] == s.last());
                }
            }
            assert(r =~= s.drop_last().push(s.last()));
            assert(r =~= s);
        }
    }
}

/// A topic record brought into normal form: its subscriber list is
/// deduplicated; name and log are kept verbatim.
pub open spec fn normalize_topic(t: TopicView) -> TopicView {
    TopicView { name: t.name, subscribers: dedup_strs(t.subscribers), msgs: t.msgs }
}

/// An acknowledgment record brought into normal form: its client list is
/// deduplicated.
pub open spec fn normalize_ack(a: AckView) -> AckView {
    AckView { msg_id: a.msg_id, clients: dedup_strs(a.clients) }
}

/// The topic records with later duplicate names dropped: the first record of
/// each name is kept, in order.
pub open spec fn dedup_topics(ts: Seq<TopicView>) -> Seq<TopicView>
    decreases ts.len(),
{
    if ts.len() == 0 {
        Seq::empty()
    } else {
        let d = dedup_topics(ts.drop_last());
        if topic_names(d).contains(ts.last().name) {
            d
        } else {
            d.push(ts.last())
        }
    }
}

/// The acknowledgment records with later duplicate identifiers dropped.
pub open spec fn dedup_acks(acks: Seq<AckView>) -> Seq<AckView>
    decreases acks.len(),
{
    if acks.len() == 0 {
        Seq::empty()
    } else {
        let d = dedup_acks(acks.drop_last());
        if ack_ids(d).contains(acks.last().msg_id) {
            d
        } else {
            d.push(acks.last())
        }
    }
}

/// A whole broker state brought into normal form: every record normalized,
/// and records with duplicate keys dropped (first occurrence kept).
pub open spec fn normalize_broker(bv: BrokerView) -> BrokerView {
    BrokerView {
        topics: dedup_topics(bv.topics.map_values(|t: TopicView| normalize_topic(t))),
        acks: dedup_acks(bv.acks.map_values(|a: AckView| normalize_ack(a))),
    }
}

/// Topic deduplication yields unique names, keeps only records of the input,
/// and leaves a sequence with unique names unchanged.
pub proof fn lemma_dedup_topics(ts: Seq<TopicView>)
    ensures
        unique_strs(topic_names(dedup_topics(ts))),
        forall|i: int|
            0 <= i < dedup_topics(ts).len() ==> ts.contains(#[trigger] dedup_topics(ts)[i]),
        unique_strs(topic_names(ts)) ==> dedup_topics(ts) =~= ts,
    decreases ts.len(),
{
    if ts.len() > 0 {
        lemma_dedup_topics(ts.drop_last());
        let d = dedup_topics(ts.drop_last());
        let r = dedup_topics(ts);
        assert(ts[ts.len() - 1] == ts.last());
        assert forall|i: int| 0 <= i < r.len() implies ts.contains(#[trigger] r[i]) by {
            if i < d.len() {
                assert(ts.drop_last().contains(d[i]));
                let j = choose|j: int| 0 <= j < ts.drop_last().len() && ts.drop_last()[j] == d[i];
                assert(ts[j] == d[i]);
            } else {
                assert(r[i] == ts.last());
            }
        }
        if !topic_names(d).contains(ts.last().name) {
            assert forall|a: int, b: int|
                0 <= a < b < topic_names(r).len() implies topic_names(r)[a] != topic_names(
                r,
            )[b] by {
                if b == r.len() - 1 {
                    assert(topic_names(r)[b] == ts.last().name);
                    assert(topic_names(d)[a] == topic_names(r)[a]);
                    if topic_names(d)[a] == ts.last().name {
                        assert(topic_names(d).contains(ts.last().name));
                    }
                } else {
                    assert(topic_names(r)[a] == topic_names(d)[a]);
                    assert(topic_names(r)[b] == topic_names(d)[b]);
                }
            }
        }
        if unique_strs(topic_names(ts)) {
            assert forall|a: int, b: int|
                0 <= a < b < topic_names(ts.drop_last()).len() implies topic_names(
                ts.drop_last(),
            )[a] != topic_names(ts.drop_last())[b] by {
                assert(topic_names(ts)[a] == topic_names(ts.drop_last())[a]);
                assert(topic_names(ts)[b] == topic_names(ts.drop_last())[b]);
            }
            assert(d =~= ts.drop_last());
            assert(!topic_names(d).contains(ts.last().name)) by {
                if topic_names(d).contains(ts.last().name) {
                    let i = choose|i: int|
                        0 <= i < topic_names(d).len() && topic_names(d)[i] == ts.last().name;
                    assert(topic_names(ts)[i] == ts.last().name);
                    assert(topic_names(ts)[ts.len() - 1] == ts.last().name);
                }
            }
            assert(r =~= ts.drop_last().push(ts.last()));
            assert(r =~= ts);
        }
    }
}

/// Acknowledgment-record deduplication: the same, keyed by message
/// identifier.
pub proof fn lemma_dedup_acks(acks: Seq<AckView>)
    ensures
        unique_strs(ack_ids(dedup_acks(acks))),
        forall|i: int|
            0 <= i < dedup_acks(acks).len() ==> acks.contains(#[trigger] dedup_acks(acks)[i]),
        unique_strs(ack_ids(acks)) ==> dedup_acks(acks) =~= acks,
    decreases acks.len(),
{
    if acks.len() > 0 {
        lemma_dedup_acks(acks.drop_last());
        let d = dedup_acks(acks.drop_last());
        let r = dedup_acks(acks);
        assert(acks[acks.len() - 1] == acks.last());
        assert forall|i: int| 0 <= i < r.len() implies acks.contains(#[trigger] r[i]) by {
            if i < d.len() {
                assert(acks.drop_last().contains(d[i]));
                let j = choose|j: int|
                    0 <= j < acks.drop_last().len() && acks.drop_last()[j] == d[i];
                assert(acks[j] == d[i]);
            } else {
                assert(r[i] == acks.last());
            }
        }
        if !ack_ids(d).contains(acks.last().msg_id) {
            assert forall|a: int, b: int|
                0 <= a < b < ack_ids(r).len() implies ack_ids(r)[a] != ack_ids(r)[b] by {
                if b == r.len() - 1 {
                    assert(ack_ids(r)[b] == acks.last().msg_id);
                    assert(ack_ids(d)[a] == ack_ids(r)[a]);
                    if ack_ids(d)[a] == acks.last().msg_id {
                        assert(ack_ids(d).contains(acks.last().msg_id));
                    }
                } else {
                    assert(ack_ids(r)[a] == ack_ids(d)[a]);
                    assert(ack_ids(r)[b] == ack_ids(d)[b]);
                }
            }
        }
        if unique_strs(ack_ids(acks)) {
            assert forall|a: int, b: int|
                0 <= a < b < ack_ids(acks.drop_last()).len() implies ack_ids(
                acks.drop_last(),
            )[a] != ack_ids(acks.drop_last())[b] by {
                assert(ack_ids(acks)[a] == ack_ids(acks.drop_last())[a]);
                assert(ack_ids(acks)[b] == ack_ids(acks.drop_last())[b]);
            }
            assert(d =~= acks.drop_last());
            assert(!ack_ids(d).contains(acks.last().msg_id)) by {
                if ack_ids(d).contains(acks.last().msg_id) {
                    let i = choose|i: int|
                        0 <= i < ack_ids(d).len() && ack_ids(d)[i] == acks.last().msg_id;
                    assert(ack_ids(acks)[i] == acks.last().msg_id);
                    assert(ack_ids(acks)[acks.len() - 1] == acks.last().msg_id);
                }
            }
            assert(r =~= acks.drop_last().push(acks.last()));
            assert(r =~= acks);
        }
    }
}

/// A well-formed broker state is already in normal form: normalization is
/// the identity on it.
pub proof fn lemma_normalize_identity(bv: BrokerView)
    requires
        bv.wf(),
    ensures
        normalize_broker(bv) == bv,
{
    let nts = bv.topics.map_values(|t: TopicView| normalize_topic(t));
    assert forall|i: int| 0 <= i < nts.len() implies nts[i] == bv.topics[i] by {
        assert(bv.topics[i].wf());
        lemma_dedup_strs(bv.topics[i].subscribers);
        assert(dedup_strs(bv.topics[i].subscribers) =~= bv.topics[i].subscribers);
        assert(nts[i] == normalize_topic(bv.topics[i]));
    }
    assert(nts =~= bv.topics);
    assert(topic_names(nts) =~= topic_names(bv.topics));
    lemma_dedup_topics(nts);
    assert(dedup_topics(nts) =~= bv.topics);

    let nas = bv.acks.map_values(|a: AckView| normalize_ack(a));
    assert forall|i: int| 0 <= i < nas.len() implies nas[i] == bv.acks[i] by {
        assert(unique_strs(bv.acks[i].clients));
        lemma_dedup_strs(bv.acks[i].clients);
        assert(dedup_strs(bv.acks[i].clients) =~= bv.acks[i].clients);
        assert(nas[i] == normalize_ack(bv.acks[i]));
    }
    assert(nas =~= bv.acks);
    assert(ack_ids(nas) =~= ack_ids(bv.acks));
    lemma_dedup_acks(nas);
    assert(dedup_acks(nas) =~= bv.acks);
    assert(normalize_broker(bv) =~= bv);
}

/// Fresh copies of a vector of strings, values kept verbatim.
fn clone_strings(v: &Vec<String>) -> (r: Vec<String>)
    ensures
        r@ == v@,
{
    let mut r: Vec<String> = Vec::new();
    let mut i: usize = 0;
    while i < v.len()
        invariant
            0 <= i <= v.len(),
            r@ =~= v@.take(i as int),
        decreases v.len() - i,
    {
        r.push(v[i].clone());
        proof {
            assert(v@.take(i + 1int).drop_last() =~= v@.take(i as int));
            assert(v@.take(i + 1int).last() == v@[i as int]);
            assert(r@ =~= v@.take(i + 1int));
        }
        i += 1;
    }
    proof {
        assert(v@.take(v@.len() as int) =~= v@);
    }
    r
}

/// Fresh copies of a vector of strings with later duplicates dropped.
fn dedup_strings(v: &Vec<String>) -> (r: Vec<String>)
    ensures
        str_views(r@) == dedup_strs(str_views(v@)),
{
    let mut r: Vec<String> = Vec::new();
    assert(str_views(r@) =~= dedup_strs(str_views(v@).take(0)));
    let mut i: usize = 0;
    while i < v.len()
        invariant
            0 <= i <= v.len(),
            str_views(r@) =~= dedup_strs(str_views(v@).take(i as int)),
        decreases v.len() - i,
    {
        let ghost pre = str_views(v@).take(i as int);
        let ghost post = str_views(v@).take(i + 1int);
        proof {
            assert(post.drop_last() =~= pre);
            assert(post.last() == str_views(v@)[i as int]);
        }
        if !contains_str(&r, v[i].as_str()) {
            let ghost r_pre = r@;
            r.push(v[i].clone());
            proof {
                assert(str_views(r@) =~= str_views(r_pre).push(v@[i as int]@));
                assert(str_views(r@) =~= dedup_strs(post));
            }
        } else {
            proof {
                assert(str_views(r@) =~= dedup_strs(post));
            }
        }
        i += 1;
    }
    proof {
        assert(str_views(v@).take(v@.len() as int) =~= str_views(v@));
    }
    r
}

impl Msg {
    /// The wire form of this message: fields copied verbatim.
    pub fn to_proto(&self) -> (p: ProtoMsg)
        ensures
            p@ == self@,
    {
        ProtoMsg { id: self.id.clone(), payload: self.payload.clone() }
    }

    /// A message from its wire form: fields taken verbatim.
    pub fn from_proto(proto: ProtoMsg) -> (m: Msg)
        ensures
            m@ == proto@,
    {
        Msg { id: proto.id, payload: proto.payload }
    }
}

impl Topic {
    /// The wire form of this topic: state copied verbatim.
    pub fn to_proto(&self) -> (p: ProtoTopic)
        ensures
            p@ == self@,
    {
        let mut msgs: Vec<ProtoMsg> = Vec::new();
        let mut i: usize = 0;
        while i < self.msgs.len()
            invariant
                0 <= i <= self.msgs@.len(),
                proto_msg_views(msgs@) =~= msg_views(self.msgs@).take(i as int),
            decreases self.msgs@.len() - i,
        {
            let p = self.msgs[i].to_proto();
            let ghost pv2 = p@;
            let ghost msgs_pre = msgs@;
            msgs.push(p);
            proof {
                assert(pv2 == msg_views(self.msgs@)[i as int]);
                assert(proto_msg_views(msgs@) =~= proto_msg_views(msgs_pre).push(pv2));
                assert(proto_msg_views(msgs@) =~= msg_views(self.msgs@).take(i + 1int));
            }
            i += 1;
        }
        let p = ProtoTopic {
            name: self.name.clone(),
            subscribers: clone_strings(&self.subscribers),
            msgs,
        };
        proof {
            assert(msg_views(self.msgs@).take(self.msgs@.len() as int) =~= msg_views(self.msgs@));
            assert(p@ =~= self@);
        }
        p
    }

    /// A topic from its wire form: the subscriber list is deduplicated, the
    /// log is taken verbatim.
    pub fn from_proto(proto: ProtoTopic) -> (t: Topic)
        ensures
            t@ == normalize_topic(proto@),
            t@.wf(),
    {
        let ghost pv = proto@;
        let subscribers = dedup_strings(&proto.subscribers);
        let mut msgs: Vec<Msg> = Vec::new();
        let mut i: usize = 0;
        while i < proto.msgs.len()
            invariant
                0 <= i <= proto.msgs@.len(),
                proto_msg_views(proto.msgs@) == pv.msgs,
                msg_views(msgs@) =~= proto_msg_views(proto.msgs@).take(i as int),
            decreases proto.msgs@.len() - i,
        {
            let m = &proto.msgs[i];
            let fresh = Msg { id: m.id.clone(), payload: m.payload.clone() };
            let ghost fv = fresh@;
            let ghost msgs_pre = msgs@;
            msgs.push(fresh);
            proof {
                assert(fv == proto_msg_views(proto.msgs@)[i as int]);
                assert(msg_views(msgs@) =~= msg_views(msgs_pre).push(fv));
                assert(msg_views(msgs@) =~= proto_msg_views(proto.msgs@).take(i + 1int));
            }
            i += 1;
        }
        let t = Topic { name: proto.name, subscribers, msgs };
        proof {
            assert(pv.msgs.take(pv.msgs.len() as int) =~= pv.msgs);
            assert(t@ =~= normalize_topic(pv));
            lemma_dedup_strs(pv.subscribers);
        }
        t
    }
}

impl Broker {
    /// The wire form of the whole broker state, copied verbatim.
    pub fn to_proto(&self) -> (p: ProtoBroker)
        ensures
            p@ == self@,
    {
        let mut topics: Vec<ProtoTopic> = Vec::new();
        let mut i: usize = 0;
        while i < self.topics.len()
            invariant
                0 <= i <= self.topics@.len(),
                proto_topic_views(topics@) =~= topic_views(self.topics@).take(i as int),
            decreases self.topics@.len() - i,
        {
            let p = self.topics[i].to_proto();
            let ghost pv2 = p@;
            let ghost topics_pre = topics@;
            topics.push(p);
            proof {
                assert(pv2 == topic_views(self.topics@)[i as int]);
                assert(proto_topic_views(topics@) =~= proto_topic_views(topics_pre).push(pv2));
                assert(proto_topic_views(topics@) =~= topic_views(self.topics@).take(i + 1int));
            }
            i += 1;
        }
        let mut acked_msgs: Vec<ProtoAck> = Vec::new();
        let mut j: usize = 0;
        while j < self.acked_msgs.len()
            invariant
                0 <= j <= self.acked_msgs@.len(),
                proto_ack_views(acked_msgs@) =~= ack_views(self.acked_msgs@).take(j as int),
            decreases self.acked_msgs@.len() - j,
        {
            let a = &self.acked_msgs[j];
            let p = ProtoAck { msg_id: a.msg_id.clone(), clients: clone_strings(&a.clients) };
            let ghost pv2 = p@;
            let ghost acked_pre = acked_msgs@;
            acked_msgs.push(p);
            proof {
                assert(pv2 == ack_views(self.acked_msgs@)[j as int]);
                assert(proto_ack_views(acked_msgs@) =~= proto_ack_views(acked_pre).push(pv2));
                assert(proto_ack_views(acked_msgs@) =~= ack_views(self.acked_msgs@).take(j + 1int));
            }
            j += 1;
        }
        let p = ProtoBroker { topics, acked_msgs };
        proof {
            assert(topic_views(self.topics@).take(self.topics@.len() as int) =~= topic_views(
                self.topics@,
            ));
            assert(ack_views(self.acked_msgs@).take(self.acked_msgs@.len() as int) =~= ack_views(
                self.acked_msgs@,
            ));
            assert(p@ =~= self@);
        }
        p
    }

    /// A broker from its wire form: every record normalized and duplicate
    /// keys dropped (the first record of each key is kept). On the wire form
    /// of a well-formed broker this reproduces it exactly
    /// ([`lemma_normalize_identity`]).
    pub fn from_proto(proto: ProtoBroker) -> (b: Broker)
        ensures
            b@ == normalize_broker(proto@),
            b@.wf(),
    {
        let ghost pv = proto@;
        let ghost norm_ts = pv.topics.map_values(|t: TopicView| normalize_topic(t));
        let ghost norm_as = pv.acks.map_values(|a: AckView| normalize_ack(a));

        let mut rest_topics = proto.topics;
        let ghost orig_topics = rest_topics@;
        let n_topics: usize = rest_topics.len();
        let mut topics: Vec<Topic> = Vec::new();
        let mut k: usize = 0;
        while rest_topics.len() > 0
            invariant
                n_topics == orig_topics.len(),
                k == orig_topics.len() - rest_topics@.len(),
                0 <= k <= orig_topics.len(),
                rest_topics@ =~= orig_topics.skip(k as int),
                proto_topic_views(orig_topics) == pv.topics,
                norm_ts == pv.topics.map_values(|t: TopicView| normalize_topic(t)),
                topic_views(topics@) =~= dedup_topics(norm_ts.take(k as int)),
                forall|i: int|
                    0 <= i < topic_views(topics@).len() ==> (#[trigger] topic_views(
                        topics@,
                    )[i]).wf(),
            decreases rest_topics@.len(),
        {
            let ghost pre = norm_ts.take(k as int);
            let ghost post = norm_ts.take(k + 1int);
            let pt = rest_topics.remove(0);
            proof {
                assert(pt@ == pv.topics[k as int]);
                assert(post.drop_last() =~= pre);
                assert(post.last() == normalize_topic(pv.topics[k as int]));
            }
            let t = Topic::from_proto(pt);
            match crate::broker::find_topic(&topics, t.name.as_str()) {
                Some(idx) => {
                    proof {
                        assert(topic_names(topic_views(topics@))[idx as int] == t@.name);
                        assert(topic_names(dedup_topics(pre)).contains(t@.name));
                        assert(dedup_topics(post) == dedup_topics(pre));
                    }
                },
                None => {
                    let ghost tv = t@;
                    topics.push(t);
                    proof {
                        assert(topic_views(topics@) =~= dedup_topics(pre).push(tv));
                        assert(dedup_topics(post) == dedup_topics(pre).push(tv));
                    }
                },
            }
            k += 1;
            proof {
                assert(rest_topics@ =~= orig_topics.skip(k as int));
            }
        }
        proof {
            assert(norm_ts.take(norm_ts.len() as int) =~= norm_ts);
        }

        let mut rest_acks = proto.acked_msgs;
        let ghost orig_acks = rest_acks@;
        let n_acks: usize = rest_acks.len();
        let mut acked_msgs: Vec<AckRecord> = Vec::new();
        let mut j: usize = 0;
        while rest_acks.len() > 0
            invariant
                n_acks == orig_acks.len(),
                j == orig_acks.len() - rest_acks@.len(),
                0 <= j <= orig_acks.len(),
                rest_acks@ =~= orig_acks.skip(j as int),
                proto_ack_views(orig_acks) == pv.acks,
                norm_as == pv.acks.map_values(|a: AckView| normalize_ack(a)),
                ack_views(acked_msgs@) =~= dedup_acks(norm_as.take(j as int)),
                forall|i: int|
                    0 <= i < ack_views(acked_msgs@).len() ==> unique_strs(
                        (#[trigger] ack_views(acked_msgs@)[i]).clients,
                    ),
            decreases rest_acks@.len(),
        {
            let ghost pre = norm_as.take(j as int);
            let ghost post = norm_as.take(j + 1int);
            let pa = rest_acks.remove(0);
            proof {
                assert(pa@ == pv.acks[j as int]);
                assert(post.drop_last() =~= pre);
                assert(post.last() == normalize_ack(pv.acks[j as int]));
            }
            let clients = dedup_strings(&pa.clients);
            let rec = AckRecord { msg_id: pa.msg_id, clients };
            proof {
                assert(rec@ =~= normalize_ack(pv.acks[j as int]));
                lemma_dedup_strs(pv.acks[j as int].clients);
            }
            match crate::broker::find_ack(&acked_msgs, rec.msg_id.as_str()) {
                Some(idx) => {
                    proof {
                        assert(ack_ids(ack_views(acked_msgs@))[idx as int] == rec@.msg_id);
                        assert(ack_ids(dedup_acks(pre)).contains(rec@.msg_id));
                        assert(dedup_acks(post) == dedup_acks(pre));
                    }
                },
                None => {
                    let ghost av = rec@;
                    acked_msgs.push(rec);
                    proof {
                        assert(ack_views(acked_msgs@) =~= dedup_acks(pre).push(av));
                        assert(dedup_acks(post) == dedup_acks(pre).push(av));
                    }
                },
            }
            j += 1;
            proof {
                assert(rest_acks@ =~= orig_acks.skip(j as int));
            }
        }
        proof {
            assert(norm_as.take(norm_as.len() as int) =~= norm_as);
        }

        let b = Broker { topics, acked_msgs };
        proof {
            assert(b@ =~= normalize_broker(pv));
            lemma_dedup_topics(norm_ts);
            lemma_dedup_acks(norm_as);
            assert(b@.wf());
        }
        b
    }
}

} // verus!
