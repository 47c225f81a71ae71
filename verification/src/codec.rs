//! The snapshot codec: a fixed, self-contained binary schema for the whole
//! broker state. Every count and length is a 64-bit little-endian integer;
//! strings are their UTF-8 bytes, length-prefixed. The decoder is proved
//! complete: any buffer that starts with the encoding of a (length-bounded)
//! state decodes back to exactly that state.

use vstd::prelude::*;
use vstd::slice::{slice_subrange, slice_to_vec};
use vstd::utf8::{decode_utf8, encode_utf8, valid_utf8};

use crate::broker::{AckView, Broker, BrokerView};
use crate::msg::MsgView;
use crate::proto::{normalize_broker, proto_ack_views, proto_msg_views, proto_topic_views,
    ProtoAck, ProtoBroker, ProtoMsg, ProtoTopic};
use crate::topic::{str_views, TopicView};

verus! {

broadcast use vstd::utf8::encode_utf8_valid_utf8, vstd::utf8::encode_utf8_decode_utf8;

/// Does the count fit a 64-bit length field?
pub open spec fn fits_u64(n: nat) -> bool {
    n < 0x10000000000000000
}

/// A 64-bit value as eight bytes, least significant first.
pub open spec fn enc_u64(n: u64) -> Seq<u8> {
    seq![
        n as u8,
        (n >> 8) as u8,
        (n >> 16) as u8,
        (n >> 24) as u8,
        (n >> 32) as u8,
        (n >> 40) as u8,
        (n >> 48) as u8,
        (n >> 56) as u8,
    ]
}

/// A string: the length of its UTF-8 encoding, then those bytes.
pub open spec fn enc_str(s: Seq<char>) -> Seq<u8> {
    enc_u64(encode_utf8(s).len() as u64) + encode_utf8(s)
}

/// The string's UTF-8 length fits the length field.
pub open spec fn str_ok(s: Seq<char>) -> bool {
    fits_u64(encode_utf8(s).len())
}

/// The items of a string list, one after the other.
pub open spec fn enc_str_items(ss: Seq<Seq<char>>) -> Seq<u8>
    decreases ss.len(),
{
    if ss.len() == 0 {
        Seq::empty()
    } else {
        enc_str(ss[0]) + enc_str_items(ss.drop_first())
    }
}

/// A string list: its count, then its items.
pub open spec fn enc_str_list(ss: Seq<Seq<char>>) -> Seq<u8> {
    enc_u64(ss.len() as u64) + enc_str_items(ss)
}

/// Every string and the count fit their length fields.
pub open spec fn strs_ok(ss: Seq<Seq<char>>) -> bool {
    fits_u64(ss.len()) && forall|i: int| 0 <= i < ss.len() ==> str_ok(#[trigger] ss[i])
}

/// A message: its identifier, then its payload.
pub open spec fn enc_msg(m: MsgView) -> Seq<u8> {
    enc_str(m.id) + enc_str(m.payload)
}

pub open spec fn msg_ok(m: MsgView) -> bool {
    str_ok(m.id) && str_ok(m.payload)
}

/// The items of a message list, one after the other.
pub open spec fn enc_msg_items(ms: Seq<MsgView>) -> Seq<u8>
    decreases ms.len(),
{
    if ms.len() == 0 {
        Seq::empty()
    } else {
        enc_msg(ms[0]) + enc_msg_items(ms.drop_first())
    }
}

/// A message list: its count, then its items.
pub open spec fn enc_msg_list(ms: Seq<MsgView>) -> Seq<u8> {
    enc_u64(ms.len() as u64) + enc_msg_items(ms)
}

pub open spec fn msgs_ok(ms: Seq<MsgView>) -> bool {
    fits_u64(ms.len()) && forall|i: int| 0 <= i < ms.len() ==> msg_ok(#[trigger] ms[i])
}

/// A topic record: its name, its subscriber list, its message log.
pub open spec fn enc_topic(t: TopicView) -> Seq<u8> {
    enc_str(t.name) + enc_str_list(t.subscribers) + enc_msg_list(t.msgs)
}

pub open spec fn topic_ok(t: TopicView) -> bool {
    str_ok(t.name) && strs_ok(t.subscribers) && msgs_ok(t.msgs)
}

/// The items of a topic list, one after the other.
pub open spec fn enc_topic_items(ts: Seq<TopicView>) -> Seq<u8>
    decreases ts.len(),
{
    if ts.len() == 0 {
        Seq::empty()
    } else {
        enc_topic(ts[0]) + enc_topic_items(ts.drop_first())
    }
}

/// A topic list: its count, then its items.
pub open spec fn enc_topic_list(ts: Seq<TopicView>) -> Seq<u8> {
    enc_u64(ts.len() as u64) + enc_topic_items(ts)
}

pub open spec fn topics_ok(ts: Seq<TopicView>) -> bool {
    fits_u64(ts.len()) && forall|i: int| 0 <= i < ts.len() ==> topic_ok(#[trigger] ts[i])
}

/// An acknowledgment record: its message identifier, then its client list.
pub open spec fn enc_ack(a: AckView) -> Seq<u8> {
    enc_str(a.msg_id) + enc_str_list(a.clients)
}

pub open spec fn ack_ok(a: AckView) -> bool {
    str_ok(a.msg_id) && strs_ok(a.clients)
}

/// The items of an acknowledgment-record list, one after the other.
pub open spec fn enc_ack_items(acks: Seq<AckView>) -> Seq<u8>
    decreases acks.len(),
{
    if acks.len() == 0 {
        Seq::empty()
    } else {
        enc_ack(acks[0]) + enc_ack_items(acks.drop_first())
    }
}

/// An acknowledgment-record list: its count, then its items.
pub open spec fn enc_ack_list(acks: Seq<AckView>) -> Seq<u8> {
    enc_u64(acks.len() as u64) + enc_ack_items(acks)
}

pub open spec fn acks_ok(acks: Seq<AckView>) -> bool {
    fits_u64(acks.len()) && forall|i: int| 0 <= i < acks.len() ==> ack_ok(#[trigger] acks[i])
}

/// A whole broker state: its topic list, then its acknowledgment list.
pub open spec fn enc_broker(bv: BrokerView) -> Seq<u8> {
    enc_topic_list(bv.topics) + enc_ack_list(bv.acks)
}

/// Every count and string length in the state fits its length field. Any
/// state held in memory satisfies this; [`ProtoBroker::encode`] proves it of
/// its input.
pub open spec fn broker_ok(bv: BrokerView) -> bool {
    topics_ok(bv.topics) && acks_ok(bv.acks)
}

/// Appending an item to a list appends its encoding.
proof fn lemma_enc_str_items_snoc(ss: Seq<Seq<char>>, x: Seq<char>)
    ensures
        enc_str_items(ss.push(x)) == enc_str_items(ss) + enc_str(x),
    decreases ss.len(),
{
    reveal_with_fuel(enc_str_items, 3);
    if ss.len() == 0 {
        assert(ss.push(x)[0] == x);
        assert(ss.push(x).drop_first() =~= Seq::<Seq<char>>::empty());
        assert(enc_str_items(ss.push(x)) =~= enc_str_items(ss) + enc_str(x));
    } else {
        lemma_enc_str_items_snoc(ss.drop_first(), x);
        assert(ss.push(x)[0] == ss[0]);
        assert(ss.push(x).drop_first() =~= ss.drop_first().push(x));
        assert(enc_str_items(ss.push(x)) == enc_str(ss[0]) + enc_str_items(
            ss.drop_first().push(x),
        ));
        assert(enc_str(ss[0]) + (enc_str_items(ss.drop_first()) + enc_str(x)) =~= (enc_str(ss[0])
            + enc_str_items(ss.drop_first())) + enc_str(x));
    }
}

proof fn lemma_enc_msg_items_snoc(ms: Seq<MsgView>, x: MsgView)
    ensures
        enc_msg_items(ms.push(x)) == enc_msg_items(ms) + enc_msg(x),
    decreases ms.len(),
{
    reveal_with_fuel(enc_msg_items, 3);
    if ms.len() == 0 {
        assert(ms.push(x)[0] == x);
        assert(ms.push(x).drop_first() =~= Seq::<MsgView>::empty());
        assert(enc_msg_items(ms.push(x)) =~= enc_msg_items(ms) + enc_msg(x));
    } else {
        lemma_enc_msg_items_snoc(ms.drop_first(), x);
        assert(ms.push(x)[0] == ms[0]);
        assert(ms.push(x).drop_first() =~= ms.drop_first().push(x));
        assert(enc_msg_items(ms.push(x)) == enc_msg(ms[0]) + enc_msg_items(
            ms.drop_first().push(x),
        ));
        assert(enc_msg(ms[0]) + (enc_msg_items(ms.drop_first()) + enc_msg(x)) =~= (enc_msg(ms[0])
            + enc_msg_items(ms.drop_first())) + enc_msg(x));
    }
}

#[verifier::rlimit(50)]
proof fn lemma_enc_topic_items_snoc(ts: Seq<TopicView>, x: TopicView)
    ensures
        enc_topic_items(ts.push(x)) == enc_topic_items(ts) + enc_topic(x),
    decreases ts.len(),
{
    reveal_with_fuel(enc_topic_items, 3);
    if ts.len() == 0 {
        assert(ts.push(x)[0] == x);
        assert(ts.push(x).drop_first() =~= Seq::<TopicView>::empty());
        assert(enc_topic_items(ts.push(x)) =~= enc_topic_items(ts) + enc_topic(x));
    } else {
        lemma_enc_topic_items_snoc(ts.drop_first(), x);
        assert(ts.push(x)[0] == ts[0]);
        assert(ts.push(x).drop_first() =~= ts.drop_first().push(x));
        assert(enc_topic_items(ts.push(x)) == enc_topic(ts[0]) + enc_topic_items(
            ts.drop_first().push(x),
        ));
        assert(enc_topic(ts[0]) + (enc_topic_items(ts.drop_first()) + enc_topic(x)) =~= (enc_topic(
            ts[0],
        ) + enc_topic_items(ts.drop_first())) + enc_topic(x));
    }
}

proof fn lemma_enc_ack_items_snoc(acks: Seq<AckView>, x: AckView)
    ensures
        enc_ack_items(acks.push(x)) == enc_ack_items(acks) + enc_ack(x),
    decreases acks.len(),
{
    reveal_with_fuel(enc_ack_items, 3);
    if acks.len() == 0 {
        assert(acks.push(x)[0] == x);
        assert(acks.push(x).drop_first() =~= Seq::<AckView>::empty());
        assert(enc_ack_items(acks.push(x)) =~= enc_ack_items(acks) + enc_ack(x));
    } else {
        lemma_enc_ack_items_snoc(acks.drop_first(), x);
        assert(acks.push(x)[0] == acks[0]);
        assert(acks.push(x).drop_first() =~= acks.drop_first().push(x));
        assert(enc_ack_items(acks.push(x)) == enc_ack(acks[0]) + enc_ack_items(
            acks.drop_first().push(x),
        ));
        assert(enc_ack(acks[0]) + (enc_ack_items(acks.drop_first()) + enc_ack(x)) =~= (enc_ack(
            acks[0],
        ) + enc_ack_items(acks.drop_first())) + enc_ack(x));
    }
}

/// Splitting a buffer known to continue with `front + back`: after `front`
/// the buffer continues with `back`, and the bytes in between are `front`.
proof fn lemma_skip_parts(b: Seq<u8>, pos: int, front: Seq<u8>, back: Seq<u8>)
    requires
        0 <= pos <= b.len(),
        b.skip(pos) == front + back,
    ensures
        pos + front.len() <= b.len(),
        b.skip(pos + front.len()) =~= back,
        b.subrange(pos, pos + front.len()) =~= front,
{
    assert(b.skip(pos).len() == b.len() - pos);
    assert((front + back).len() == front.len() + back.len());
    assert(pos + front.len() <= b.len());
    assert forall|i: int| 0 <= i < back.len() implies b.skip(pos + front.len() as int)[i]
        == back[i] by {
        assert(b.skip(pos)[front.len() + i] == (front + back)[front.len() + i]);
        assert(b.skip(pos)[front.len() + i] == b[pos + front.len() + i]);
        assert((front + back)[front.len() + i] == back[i]);
        assert(b.skip(pos + front.len() as int)[i] == b[pos + front.len() + i]);
    }
    assert forall|i: int| 0 <= i < front.len() implies b.subrange(pos, pos + front.len() as int)[i]
        == front[i] by {
        assert(b.skip(pos)[i] == (front + back)[i]);
        assert(b.skip(pos)[i] == b[pos + i]);
        assert((front + back)[i] == front[i]);
    }
}

/// Appends the eight little-endian bytes of `n`.
fn push_u64(out: &mut Vec<u8>, n: u64)
    ensures
        final(out)@ == old(out)@ + enc_u64(n),
{
    let ghost before = out@;
    out.push(#[verifier::truncate] (n as u8));
    out.push(#[verifier::truncate] ((n >> 8) as u8));
    out.push(#[verifier::truncate] ((n >> 16) as u8));
    out.push(#[verifier::truncate] ((n >> 24) as u8));
    out.push(#[verifier::truncate] ((n >> 32) as u8));
    out.push(#[verifier::truncate] ((n >> 40) as u8));
    out.push(#[verifier::truncate] ((n >> 48) as u8));
    out.push(#[verifier::truncate] ((n >> 56) as u8));
    assert(out@ =~= before + enc_u64(n));
}

/// Appends the encoding of one string.
fn push_str(out: &mut Vec<u8>, s: &str)
    ensures
        final(out)@ == old(out)@ + enc_str(s@),
        str_ok(s@),
{
    let ghost before = out@;
    let bytes: &[u8] = s.as_bytes();
    let len: usize = bytes.len();
    assert(bytes@ == encode_utf8(s@));
    push_u64(out, len as u64);
    let mut tail: Vec<u8> = slice_to_vec(bytes);
    out.append(&mut tail);
    assert(out@ =~= before + enc_str(s@));
}

/// Appends the encoding of a string list.
fn push_str_list(out: &mut Vec<u8>, v: &Vec<String>)
    ensures
        final(out)@ == old(out)@ + enc_str_list(str_views(v@)),
        strs_ok(str_views(v@)),
{
    let ghost before = out@;
    let ghost ss = str_views(v@);
    push_u64(out, v.len() as u64);
    let mut i: usize = 0;
    while i < v.len()
        invariant
            0 <= i <= v@.len(),
            ss == str_views(v@),
            ss.len() == v@.len(),
            out@ =~= before + enc_u64(v@.len() as u64) + enc_str_items(ss.take(i as int)),
            forall|k: int| 0 <= k < i ==> str_ok(#[trigger] ss[k]),
        decreases v@.len() - i,
    {
        push_str(out, v[i].as_str());
        proof {
            assert(ss.take(i + 1int) =~= ss.take(i as int).push(ss[i as int]));
            lemma_enc_str_items_snoc(ss.take(i as int), ss[i as int]);
            assert(out@ =~= before + enc_u64(v@.len() as u64) + enc_str_items(ss.take(i + 1int)));
        }
        i += 1;
    }
    proof {
        assert(ss.take(ss.len() as int) =~= ss);
        assert(out@ =~= before + enc_str_list(ss));
    }
}

/// Appends the encoding of one message record.
fn push_msg(out: &mut Vec<u8>, m: &ProtoMsg)
    ensures
        final(out)@ == old(out)@ + enc_msg(m@),
        msg_ok(m@),
{
    let ghost before = out@;
    push_str(out, m.id.as_str());
    push_str(out, m.payload.as_str());
    assert(out@ =~= before + enc_msg(m@));
}

/// Appends the encoding of a message list.
fn push_msg_list(out: &mut Vec<u8>, v: &Vec<ProtoMsg>)
    ensures
        final(out)@ == old(out)@ + enc_msg_list(proto_msg_views(v@)),
        msgs_ok(proto_msg_views(v@)),
{
    let ghost before = out@;
    let ghost ms = proto_msg_views(v@);
    push_u64(out, v.len() as u64);
    let mut i: usize = 0;
    while i < v.len()
        invariant
            0 <= i <= v@.len(),
            ms == proto_msg_views(v@),
            ms.len() == v@.len(),
            out@ =~= before + enc_u64(v@.len() as u64) + enc_msg_items(ms.take(i as int)),
            forall|k: int| 0 <= k < i ==> msg_ok(#[trigger] ms[k]),
        decreases v@.len() - i,
    {
        push_msg(out, &v[i]);
        proof {
            assert(ms.take(i + 1int) =~= ms.take(i as int).push(ms[i as int]));
            lemma_enc_msg_items_snoc(ms.take(i as int), ms[i as int]);
            assert(out@ =~= before + enc_u64(v@.len() as u64) + enc_msg_items(ms.take(i + 1int)));
        }
        i += 1;
    }
    proof {
        assert(ms.take(ms.len() as int) =~= ms);
        assert(out@ =~= before + enc_msg_list(ms));
    }
}

/// Appends the encoding of one topic record.
fn push_topic(out: &mut Vec<u8>, t: &ProtoTopic)
    ensures
        final(out)@ == old(out)@ + enc_topic(t@),
        topic_ok(t@),
{
    let ghost before = out@;
    push_str(out, t.name.as_str());
    push_str_list(out, &t.subscribers);
    push_msg_list(out, &t.msgs);
    assert(out@ =~= before + enc_topic(t@));
}

/// Appends the encoding of a topic list.
fn push_topic_list(out: &mut Vec<u8>, v: &Vec<ProtoTopic>)
    ensures
        final(out)@ == old(out)@ + enc_topic_list(proto_topic_views(v@)),
        topics_ok(proto_topic_views(v@)),
{
    let ghost before = out@;
    let ghost ts = proto_topic_views(v@);
    push_u64(out, v.len() as u64);
    let mut i: usize = 0;
    while i < v.len()
        invariant
            0 <= i <= v@.len(),
            ts == proto_topic_views(v@),
            ts.len() == v@.len(),
            out@ =~= before + enc_u64(v@.len() as u64) + enc_topic_items(ts.take(i as int)),
            forall|k: int| 0 <= k < i ==> topic_ok(#[trigger] ts[k]),
        decreases v@.len() - i,
    {
        push_topic(out, &v[i]);
        proof {
            assert(ts.take(i + 1int) =~= ts.take(i as int).push(ts[i as int]));
            lemma_enc_topic_items_snoc(ts.take(i as int), ts[i as int]);
            assert(out@ =~= before + enc_u64(v@.len() as u64) + enc_topic_items(ts.take(i + 1int)));
        }
        i += 1;
    }
    proof {
        assert(ts.take(ts.len() as int) =~= ts);
        assert(out@ =~= before + enc_topic_list(ts));
    }
}

/// Appends the encoding of one acknowledgment record.
fn push_ack(out: &mut Vec<u8>, a: &ProtoAck)
    ensures
        final(out)@ == old(out)@ + enc_ack(a@),
        ack_ok(a@),
{
    let ghost before = out@;
    push_str(out, a.msg_id.as_str());
    push_str_list(out, &a.clients);
    assert(out@ =~= before + enc_ack(a@));
}

/// Appends the encoding of an acknowledgment-record list.
fn push_ack_list(out: &mut Vec<u8>, v: &Vec<ProtoAck>)
    ensures
        final(out)@ == old(out)@ + enc_ack_list(proto_ack_views(v@)),
        acks_ok(proto_ack_views(v@)),
{
    let ghost before = out@;
    let ghost acks = proto_ack_views(v@);
    push_u64(out, v.len() as u64);
    let mut i: usize = 0;
    while i < v.len()
        invariant
            0 <= i <= v@.len(),
            acks == proto_ack_views(v@),
            acks.len() == v@.len(),
            out@ =~= before + enc_u64(v@.len() as u64) + enc_ack_items(acks.take(i as int)),
            forall|k: int| 0 <= k < i ==> ack_ok(#[trigger] acks[k]),
        decreases v@.len() - i,
    {
        push_ack(out, &v[i]);
        proof {
            assert(acks.take(i + 1int) =~= acks.take(i as int).push(acks[i as int]));
            lemma_enc_ack_items_snoc(acks.take(i as int), acks[i as int]);
            assert(out@ =~= before + enc_u64(v@.len() as u64) + enc_ack_items(
                acks.take(i + 1int),
            ));
        }
        i += 1;
    }
    proof {
        assert(acks.take(acks.len() as int) =~= acks);
        assert(out@ =~= before + enc_ack_list(acks));
    }
}

/// Reads a 64-bit little-endian value. Complete: on a buffer that continues
/// with `enc_u64(v)` it returns `v` and advances by eight.
fn dec_u64(buf: &Vec<u8>, pos: usize) -> (r: Option<(u64, usize)>)
    requires
        pos <= buf@.len(),
    ensures
        r matches Some((n, p)) ==> pos <= p <= buf@.len() && p == pos + 8,
        forall|v: u64, rest: Seq<u8>|
            buf@.skip(pos as int) == #[trigger] (enc_u64(v) + rest) ==> (r matches Some((n, p))
                && n == v && p == pos + 8),
{
    if buf.len() - pos >= 8 {
        let b0 = buf[pos];
        let b1 = buf[pos + 1];
        let b2 = buf[pos + 2];
        let b3 = buf[pos + 3];
        let b4 = buf[pos + 4];
        let b5 = buf[pos + 5];
        let b6 = buf[pos + 6];
        let b7 = buf[pos + 7];
        let n = (b0 as u64) | ((b1 as u64) << 8) | ((b2 as u64) << 16) | ((b3 as u64) << 24) | (
        (b4 as u64) << 32) | ((b5 as u64) << 40) | ((b6 as u64) << 48) | ((b7 as u64) << 56);
        proof {
            assert forall|v: u64, rest: Seq<u8>|
                buf@.skip(pos as int) == #[trigger] (enc_u64(v) + rest) implies n == v by {
                let e = enc_u64(v);
                assert(buf@.skip(pos as int)[0] == (e + rest)[0]);
                assert(buf@.skip(pos as int)[1] == (e + rest)[1]);
                assert(buf@.skip(pos as int)[2] == (e + rest)[2]);
                assert(buf@.skip(pos as int)[3] == (e + rest)[3]);
                assert(buf@.skip(pos as int)[4] == (e + rest)[4]);
                assert(buf@.skip(pos as int)[5] == (e + rest)[5]);
                assert(buf@.skip(pos as int)[6] == (e + rest)[6]);
                assert(buf@.skip(pos as int)[7] == (e + rest)[7]);
                assert(b0 == v as u8);
                assert(b1 == (v >> 8) as u8);
                assert(b2 == (v >> 16) as u8);
                assert(b3 == (v >> 24) as u8);
                assert(b4 == (v >> 32) as u8);
                assert(b5 == (v >> 40) as u8);
                assert(b6 == (v >> 48) as u8);
                assert(b7 == (v >> 56) as u8);
                assert(n == v) by (bit_vector)
                    requires
                        b0 == v as u8,
                        b1 == (v >> 8) as u8,
                        b2 == (v >> 16) as u8,
                        b3 == (v >> 24) as u8,
                        b4 == (v >> 32) as u8,
                        b5 == (v >> 40) as u8,
                        b6 == (v >> 48) as u8,
                        b7 == (v >> 56) as u8,
                        n == (b0 as u64) | ((b1 as u64) << 8) | ((b2 as u64) << 16) | ((b3
                            as u64) << 24) | ((b4 as u64) << 32) | ((b5 as u64) << 40) | ((b6
                            as u64) << 48) | ((b7 as u64) << 56),
                ;
            }
        }
        Some((n, pos + 8))
    } else {
        proof {
            assert forall|v: u64, rest: Seq<u8>|
                buf@.skip(pos as int) == #[trigger] (enc_u64(v) + rest) implies false by {
                assert(buf@.skip(pos as int).len() == buf@.len() - pos);
                assert((enc_u64(v) + rest).len() == 8 + rest.len());
            }
        }
        None
    }
}

/// A trusted bridge to the standard library's UTF-8 decoding.
///
/// Relies on `String::from_utf8`: it returns `Ok` exactly when the bytes are
/// valid UTF-8, and then the string is their decoding. vstd's `valid_utf8`
/// and `decode_utf8` model that same standard encoding (they are the spec
/// vstd itself gives to `str::from_utf8_unchecked`).
#[verifier::external_body]
fn string_from_utf8(bytes: Vec<u8>) -> (r: Option<String>)
    ensures
        r is Some <==> valid_utf8(bytes@),
        r matches Some(s) ==> s@ == decode_utf8(bytes@),
{
    match String::from_utf8(bytes) {
        Ok(s) => Some(s),
        Err(_) => None,
    }
}

/// Reads one length-prefixed string. Complete: on a buffer that continues
/// with `enc_str(v)` (for any bounded `v`) it returns `v`.
fn dec_str(buf: &Vec<u8>, pos: usize) -> (r: Option<(String, usize)>)
    requires
        pos <= buf@.len(),
    ensures
        r matches Some((s, p)) ==> pos <= p <= buf@.len(),
        forall|v: Seq<char>, rest: Seq<u8>|
            str_ok(v) && buf@.skip(pos as int) == #[trigger] (enc_str(v) + rest) ==> (r matches Some(
                (s, p),
            ) && s@ == v && p == pos + enc_str(v).len()),
{
    let ghost gbuf = buf@;
    match dec_u64(buf, pos) {
        None => {
            proof {
                assert forall|v: Seq<char>, rest: Seq<u8>|
                    str_ok(v) && buf@.skip(pos as int) == #[trigger] (enc_str(v) + rest) implies
                false by {
                    let lenv = encode_utf8(v).len() as u64;
                    assert(enc_str(v) + rest =~= enc_u64(lenv) + (encode_utf8(v) + rest));
                }
            }
            None
        },
        Some((len, p1)) => {
            let rem = buf.len() - p1;
            if len > rem as u64 {
                proof {
                    assert forall|v: Seq<char>, rest: Seq<u8>|
                        str_ok(v) && buf@.skip(pos as int) == #[trigger] (enc_str(v) + rest) implies
                    false by {
                        let lenv = encode_utf8(v).len() as u64;
                        assert(enc_str(v) + rest =~= enc_u64(lenv) + (encode_utf8(v) + rest));
                        assert(len == lenv && p1 == pos + 8);
                        lemma_skip_parts(buf@, pos as int, enc_u64(lenv), encode_utf8(v) + rest);
                        lemma_skip_parts(buf@, pos + 8, encode_utf8(v), rest);
                        assert(encode_utf8(v).len() <= buf@.len() - p1);
                    }
                }
                None
            } else {
                let n = len as usize;
                let sub: &[u8] = slice_subrange(buf.as_slice(), p1, p1 + n);
                let bytes: Vec<u8> = slice_to_vec(sub);
                let ghost got = bytes@;
                match string_from_utf8(bytes) {
                    None => {
                        proof {
                            assert forall|v: Seq<char>, rest: Seq<u8>|
                                str_ok(v) && buf@.skip(pos as int) == #[trigger] (enc_str(v)
                                    + rest) implies false by {
                                let lenv = encode_utf8(v).len() as u64;
                                assert(enc_str(v) + rest =~= enc_u64(lenv) + (encode_utf8(v)
                                    + rest));
                                assert(len == lenv && p1 == pos + 8);
                                lemma_skip_parts(
                                    buf@,
                                    pos as int,
                                    enc_u64(lenv),
                                    encode_utf8(v) + rest,
                                );
                                lemma_skip_parts(buf@, pos + 8, encode_utf8(v), rest);
                                assert(got =~= encode_utf8(v));
                                assert(valid_utf8(encode_utf8(v)));
                            }
                        }
                        None
                    },
                    Some(s) => {
                        proof {
                            assert forall|v: Seq<char>, rest: Seq<u8>|
                                str_ok(v) && buf@.skip(pos as int) == #[trigger] (enc_str(v)
                                    + rest) implies s@ == v && p1 + n == pos + enc_str(v).len() by {
                                let lenv = encode_utf8(v).len() as u64;
                                assert(enc_str(v) + rest =~= enc_u64(lenv) + (encode_utf8(v)
                                    + rest));
                                assert(len == lenv && p1 == pos + 8);
                                lemma_skip_parts(
                                    buf@,
                                    pos as int,
                                    enc_u64(lenv),
                                    encode_utf8(v) + rest,
                                );
                                lemma_skip_parts(buf@, pos + 8, encode_utf8(v), rest);
                                assert(got =~= encode_utf8(v));
                                assert(valid_utf8(encode_utf8(v)));
                                assert(s@ == decode_utf8(encode_utf8(v)));
                                assert(decode_utf8(encode_utf8(v)) == v);
                                assert(enc_str(v).len() == 8 + encode_utf8(v).len());
                            }
                        }
                        Some((s, p1 + n))
                    },
                }
            }
        },
    }
}

/// Unfolding an item sequence at its first element.
proof fn lemma_str_items_first(vs: Seq<Seq<char>>, k: int)
    requires
        0 <= k < vs.len(),
    ensures
        enc_str_items(vs.skip(k)) == enc_str(vs[k]) + enc_str_items(vs.skip(k + 1)),
{
    assert(vs.skip(k).len() > 0);
    assert(vs.skip(k)[0] == vs[k]);
    assert(vs.skip(k).drop_first() =~= vs.skip(k + 1));
}

proof fn lemma_msg_items_first(vs: Seq<MsgView>, k: int)
    requires
        0 <= k < vs.len(),
    ensures
        enc_msg_items(vs.skip(k)) == enc_msg(vs[k]) + enc_msg_items(vs.skip(k + 1)),
{
    assert(vs.skip(k).len() > 0);
    assert(vs.skip(k)[0] == vs[k]);
    assert(vs.skip(k).drop_first() =~= vs.skip(k + 1));
}

proof fn lemma_topic_items_first(vs: Seq<TopicView>, k: int)
    requires
        0 <= k < vs.len(),
    ensures
        enc_topic_items(vs.skip(k)) == enc_topic(vs[k]) + enc_topic_items(vs.skip(k + 1)),
{
    assert(vs.skip(k).len() > 0);
    assert(vs.skip(k)[0] == vs[k]);
    assert(vs.skip(k).drop_first() =~= vs.skip(k + 1));
}

proof fn lemma_ack_items_first(vs: Seq<AckView>, k: int)
    requires
        0 <= k < vs.len(),
    ensures
        enc_ack_items(vs.skip(k)) == enc_ack(vs[k]) + enc_ack_items(vs.skip(k + 1)),
{
    assert(vs.skip(k).len() > 0);
    assert(vs.skip(k)[0] == vs[k]);
    assert(vs.skip(k).drop_first() =~= vs.skip(k + 1));
}

/// Reads a string list. Complete: on a buffer that continues with
/// `enc_str_list(vs)` (for any bounded `vs`) it returns `vs`.
#[verifier::rlimit(100)]
fn dec_str_list(buf: &Vec<u8>, pos: usize) -> (r: Option<(Vec<String>, usize)>)
    requires
        pos <= buf@.len(),
    ensures
        r matches Some((v, p)) ==> pos <= p <= buf@.len(),
        forall|vs: Seq<Seq<char>>, rest: Seq<u8>|
            strs_ok(vs) && buf@.skip(pos as int) == #[trigger] (enc_str_list(vs) + rest) ==> (
            r matches Some((v, p)) && str_views(v@) == vs && p == pos + enc_str_list(vs).len()),
{
    match dec_u64(buf, pos) {
        None => {
            proof {
                assert forall|vs: Seq<Seq<char>>, rest: Seq<u8>|
                    strs_ok(vs) && buf@.skip(pos as int) == #[trigger] (enc_str_list(vs)
                        + rest) implies false by {
                    assert(enc_str_list(vs) + rest =~= enc_u64(vs.len() as u64) + (enc_str_items(
                        vs,
                    ) + rest));
                }
            }
            None
        },
        Some((count, p1)) => {
            let mut acc: Vec<String> = Vec::new();
            let mut p: usize = p1;
            let mut k: u64 = 0;
            proof {
                assert forall|vs: Seq<Seq<char>>, rest: Seq<u8>|
                    strs_ok(vs) && buf@.skip(pos as int) == #[trigger] (enc_str_list(vs)
                        + rest) implies (count == vs.len() as u64 && str_views(acc@) == vs.take(0)
                    && buf@.skip(p as int) == enc_str_items(vs.skip(0)) + rest && p == pos + 8
                    + enc_str_items(vs.take(0)).len()) by {
                    assert(enc_str_list(vs) + rest =~= enc_u64(vs.len() as u64) + (enc_str_items(
                        vs,
                    ) + rest));
                    lemma_skip_parts(
                        buf@,
                        pos as int,
                        enc_u64(vs.len() as u64),
                        enc_str_items(vs) + rest,
                    );
                    assert(vs.take(0) =~= Seq::<Seq<char>>::empty());
                    assert(vs.skip(0) =~= vs);
                    assert(str_views(acc@) =~= vs.take(0));
                    assert(enc_str_items(vs.take(0)) =~= Seq::<u8>::empty());
                }
            }
            while k < count
                invariant
                    pos <= p <= buf@.len(),
                    p1 == pos + 8,
                    forall|vs: Seq<Seq<char>>, rest: Seq<u8>|
                        strs_ok(vs) && buf@.skip(pos as int) == #[trigger] (enc_str_list(vs)
                            + rest) ==> (count == vs.len() as u64 && (k as nat) <= vs.len()
                            && str_views(acc@) == vs.take(k as int) && buf@.skip(p as int)
                            == enc_str_items(vs.skip(k as int)) + rest && p == pos + 8
                            + enc_str_items(vs.take(k as int)).len()),
                decreases count - k,
            {
                match dec_str(buf, p) {
                    None => {
                        proof {
                            assert forall|vs: Seq<Seq<char>>, rest: Seq<u8>|
                                strs_ok(vs) && buf@.skip(pos as int) == #[trigger] (enc_str_list(
                                    vs,
                                ) + rest) implies false by {
                                assert((k as nat) < vs.len());
                                lemma_str_items_first(vs, k as int);
                                assert(buf@.skip(p as int) =~= enc_str(vs[k as int]) + (
                                enc_str_items(vs.skip(k + 1int)) + rest));
                            }
                        }
                        return None;
                    },
                    Some((s, p2)) => {
                        let ghost old_p = p as int;
                        let ghost old_acc = acc@;
                        acc.push(s);
                        p = p2;
                        k = k + 1;
                        proof {
                            assert forall|vs: Seq<Seq<char>>, rest: Seq<u8>|
                                strs_ok(vs) && buf@.skip(pos as int) == #[trigger] (enc_str_list(
                                    vs,
                                ) + rest) implies (count == vs.len() as u64 && (k as nat) <= vs.len()
                                && str_views(acc@) == vs.take(k as int) && buf@.skip(p as int)
                                == enc_str_items(vs.skip(k as int)) + rest && p == pos + 8
                                + enc_str_items(vs.take(k as int)).len()) by {
                                let kk = k - 1;
                                assert((kk as nat) < vs.len());
                                lemma_str_items_first(vs, kk as int);
                                assert(buf@.skip(old_p) =~= enc_str(vs[kk as int]) + (
                                enc_str_items(vs.skip(kk + 1)) + rest));
                                assert(str_ok(vs[kk as int]));
                                assert(s@ == vs[kk as int] && p2 == old_p + enc_str(
                                    vs[kk as int],
                                ).len());
                                lemma_skip_parts(
                                    buf@,
                                    old_p,
                                    enc_str(vs[kk as int]),
                                    enc_str_items(vs.skip(kk + 1)) + rest,
                                );
                                assert(str_views(acc@) =~= str_views(old_acc).push(
                                    vs[kk as int],
                                ));
                                assert(vs.take(kk + 1) =~= vs.take(kk as int).push(
                                    vs[kk as int],
                                ));
                                lemma_enc_str_items_snoc(vs.take(kk as int), vs[kk as int]);
                            }
                        }
                    },
                }
            }
            proof {
                assert forall|vs: Seq<Seq<char>>, rest: Seq<u8>|
                    strs_ok(vs) && buf@.skip(pos as int) == #[trigger] (enc_str_list(vs)
                        + rest) implies (str_views(acc@) == vs && p == pos + enc_str_list(
                    vs,
                ).len()) by {
                    assert((k as nat) == vs.len());
                    assert(vs.take(k as int) =~= vs);
                }
            }
            Some((acc, p))
        },
    }
}

/// Reads one message record. Complete: on a buffer that continues with
/// `enc_msg(v)` (for any bounded `v`) it returns `v`.
fn dec_msg(buf: &Vec<u8>, pos: usize) -> (r: Option<(ProtoMsg, usize)>)
    requires
        pos <= buf@.len(),
    ensures
        r matches Some((m, p)) ==> pos <= p <= buf@.len(),
        forall|v: MsgView, rest: Seq<u8>|
            msg_ok(v) && buf@.skip(pos as int) == #[trigger] (enc_msg(v) + rest) ==> (r matches Some(
                (m, p),
            ) && m@ == v && p == pos + enc_msg(v).len()),
{
    match dec_str(buf, pos) {
        None => {
            proof {
                assert forall|v: MsgView, rest: Seq<u8>|
                    msg_ok(v) && buf@.skip(pos as int) == #[trigger] (enc_msg(v) + rest) implies
                false by {
                    assert(enc_msg(v) + rest =~= enc_str(v.id) + (enc_str(v.payload) + rest));
                }
            }
            None
        },
        Some((id, p1)) => {
            match dec_str(buf, p1) {
                None => {
                    proof {
                        assert forall|v: MsgView, rest: Seq<u8>|
                            msg_ok(v) && buf@.skip(pos as int) == #[trigger] (enc_msg(v)
                                + rest) implies false by {
                            assert(enc_msg(v) + rest =~= enc_str(v.id) + (enc_str(v.payload)
                                + rest));
                            lemma_skip_parts(
                                buf@,
                                pos as int,
                                enc_str(v.id),
                                enc_str(v.payload) + rest,
                            );
                        }
                    }
                    None
                },
                Some((payload, p2)) => {
                    let m = ProtoMsg { id, payload };
                    proof {
                        assert forall|v: MsgView, rest: Seq<u8>|
                            msg_ok(v) && buf@.skip(pos as int) == #[trigger] (enc_msg(v)
                                + rest) implies (m@ == v && p2 == pos + enc_msg(v).len()) by {
                            assert(enc_msg(v) + rest =~= enc_str(v.id) + (enc_str(v.payload)
                                + rest));
                            lemma_skip_parts(
                                buf@,
                                pos as int,
                                enc_str(v.id),
                                enc_str(v.payload) + rest,
                            );
                            assert(m@ =~= v);
                        }
                    }
                    Some((m, p2))
                },
            }
        },
    }
}

/// Reads a message list. Complete in the same sense as [`dec_str_list`].
#[verifier::rlimit(100)]
fn dec_msg_list(buf: &Vec<u8>, pos: usize) -> (r: Option<(Vec<ProtoMsg>, usize)>)
    requires
        pos <= buf@.len(),
    ensures
        r matches Some((v, p)) ==> pos <= p <= buf@.len(),
        forall|vs: Seq<MsgView>, rest: Seq<u8>|
            msgs_ok(vs) && buf@.skip(pos as int) == #[trigger] (enc_msg_list(vs) + rest) ==> (
            r matches Some((v, p)) && proto_msg_views(v@) == vs && p == pos + enc_msg_list(vs).len()),
{
    match dec_u64(buf, pos) {
        None => {
            proof {
                assert forall|vs: Seq<MsgView>, rest: Seq<u8>|
                    msgs_ok(vs) && buf@.skip(pos as int) == #[trigger] (enc_msg_list(vs)
                        + rest) implies false by {
                    assert(enc_msg_list(vs) + rest =~= enc_u64(vs.len() as u64) + (enc_msg_items(
                        vs,
                    ) + rest));
                }
            }
            None
        },
        Some((count, p1)) => {
            let mut acc: Vec<ProtoMsg> = Vec::new();
            let mut p: usize = p1;
            let mut k: u64 = 0;
            proof {
                assert forall|vs: Seq<MsgView>, rest: Seq<u8>|
                    msgs_ok(vs) && buf@.skip(pos as int) == #[trigger] (enc_msg_list(vs)
                        + rest) implies (count == vs.len() as u64 && proto_msg_views(acc@) == vs.take(0)
                    && buf@.skip(p as int) == enc_msg_items(vs.skip(0)) + rest && p == pos + 8
                    + enc_msg_items(vs.take(0)).len()) by {
                    assert(enc_msg_list(vs) + rest =~= enc_u64(vs.len() as u64) + (enc_msg_items(
                        vs,
                    ) + rest));
                    lemma_skip_parts(
                        buf@,
                        pos as int,
                        enc_u64(vs.len() as u64),
                        enc_msg_items(vs) + rest,
                    );
                    assert(vs.take(0) =~= Seq::<MsgView>::empty());
                    assert(vs.skip(0) =~= vs);
                    assert(proto_msg_views(acc@) =~= vs.take(0));
                    assert(enc_msg_items(vs.take(0)) =~= Seq::<u8>::empty());
                }
            }
            while k < count
                invariant
                    pos <= p <= buf@.len(),
                    p1 == pos + 8,
                    forall|vs: Seq<MsgView>, rest: Seq<u8>|
                        msgs_ok(vs) && buf@.skip(pos as int) == #[trigger] (enc_msg_list(vs)
                            + rest) ==> (count == vs.len() as u64 && (k as nat) <= vs.len()
                            && proto_msg_views(acc@) == vs.take(k as int) && buf@.skip(p as int)
                            == enc_msg_items(vs.skip(k as int)) + rest && p == pos + 8
                            + enc_msg_items(vs.take(k as int)).len()),
                decreases count - k,
            {
                match dec_msg(buf, p) {
                    None => {
                        proof {
                            assert forall|vs: Seq<MsgView>, rest: Seq<u8>|
                                msgs_ok(vs) && buf@.skip(pos as int) == #[trigger] (enc_msg_list(
                                    vs,
                                ) + rest) implies false by {
                                assert((k as nat) < vs.len());
                                lemma_msg_items_first(vs, k as int);
                                assert(buf@.skip(p as int) =~= enc_msg(vs[k as int]) + (
                                enc_msg_items(vs.skip(k + 1int)) + rest));
                            }
                        }
                        return None;
                    },
                    Some((item, p2)) => {
                        let ghost old_p = p as int;
                        let ghost old_acc = acc@;
                        acc.push(item);
                        p = p2;
                        k = k + 1;
                        proof {
                            assert forall|vs: Seq<MsgView>, rest: Seq<u8>|
                                msgs_ok(vs) && buf@.skip(pos as int) == #[trigger] (enc_msg_list(
                                    vs,
                                ) + rest) implies (count == vs.len() as u64 && (k as nat) <= vs.len()
                                && proto_msg_views(acc@) == vs.take(k as int) && buf@.skip(p as int)
                                == enc_msg_items(vs.skip(k as int)) + rest && p == pos + 8
                                + enc_msg_items(vs.take(k as int)).len()) by {
                                let kk = k - 1;
                                assert((kk as nat) < vs.len());
                                lemma_msg_items_first(vs, kk as int);
                                assert(buf@.skip(old_p) =~= enc_msg(vs[kk as int]) + (
                                enc_msg_items(vs.skip(kk + 1)) + rest));
                                assert(msg_ok(vs[kk as int]));
                                assert(item@ == vs[kk as int] && p2 == old_p + enc_msg(
                                    vs[kk as int],
                                ).len());
                                lemma_skip_parts(
                                    buf@,
                                    old_p,
                                    enc_msg(vs[kk as int]),
                                    enc_msg_items(vs.skip(kk + 1)) + rest,
                                );
                                assert(proto_msg_views(acc@) =~= proto_msg_views(old_acc).push(
                                    vs[kk as int],
                                ));
                                assert(vs.take(kk + 1) =~= vs.take(kk as int).push(
                                    vs[kk as int],
                                ));
                                lemma_enc_msg_items_snoc(vs.take(kk as int), vs[kk as int]);
                            }
                        }
                    },
                }
            }
            proof {
                assert forall|vs: Seq<MsgView>, rest: Seq<u8>|
                    msgs_ok(vs) && buf@.skip(pos as int) == #[trigger] (enc_msg_list(vs)
                        + rest) implies (proto_msg_views(acc@) == vs && p == pos + enc_msg_list(
                    vs,
                ).len()) by {
                    assert((k as nat) == vs.len());
                    assert(vs.take(k as int) =~= vs);
                }
            }
            Some((acc, p))
        },
    }
}

/// Reads one topic record. Complete: on a buffer that continues with
/// `enc_topic(v)` (for any bounded `v`) it returns `v`.
fn dec_topic(buf: &Vec<u8>, pos: usize) -> (r: Option<(ProtoTopic, usize)>)
    requires
        pos <= buf@.len(),
    ensures
        r matches Some((t, p)) ==> pos <= p <= buf@.len(),
        forall|v: TopicView, rest: Seq<u8>|
            topic_ok(v) && buf@.skip(pos as int) == #[trigger] (enc_topic(v) + rest) ==> (r matches
                Some((t, p)) && t@ == v && p == pos + enc_topic(v).len()),
{
    match dec_str(buf, pos) {
        None => {
            proof {
                assert forall|v: TopicView, rest: Seq<u8>|
                    topic_ok(v) && buf@.skip(pos as int) == #[trigger] (enc_topic(v)
                        + rest) implies false by {
                    assert(enc_topic(v) + rest =~= enc_str(v.name) + (enc_str_list(v.subscribers)
                        + (enc_msg_list(v.msgs) + rest)));
                }
            }
            None
        },
        Some((name, p1)) => {
            match dec_str_list(buf, p1) {
                None => {
                    proof {
                        assert forall|v: TopicView, rest: Seq<u8>|
                            topic_ok(v) && buf@.skip(pos as int) == #[trigger] (enc_topic(v)
                                + rest) implies false by {
                            assert(enc_topic(v) + rest =~= enc_str(v.name) + (enc_str_list(
                                v.subscribers,
                            ) + (enc_msg_list(v.msgs) + rest)));
                            lemma_skip_parts(
                                buf@,
                                pos as int,
                                enc_str(v.name),
                                enc_str_list(v.subscribers) + (enc_msg_list(v.msgs) + rest),
                            );
                        }
                    }
                    None
                },
                Some((subscribers, p2)) => {
                    match dec_msg_list(buf, p2) {
                        None => {
                            proof {
                                assert forall|v: TopicView, rest: Seq<u8>|
                                    topic_ok(v) && buf@.skip(pos as int) == #[trigger] (enc_topic(
                                        v,
                                    ) + rest) implies false by {
                                    assert(enc_topic(v) + rest =~= enc_str(v.name) + (enc_str_list(
                                        v.subscribers,
                                    ) + (enc_msg_list(v.msgs) + rest)));
                                    lemma_skip_parts(
                                        buf@,
                                        pos as int,
                                        enc_str(v.name),
                                        enc_str_list(v.subscribers) + (enc_msg_list(v.msgs)
                                            + rest),
                                    );
                                    lemma_skip_parts(
                                        buf@,
                                        pos + enc_str(v.name).len(),
                                        enc_str_list(v.subscribers),
                                        enc_msg_list(v.msgs) + rest,
                                    );
                                }
                            }
                            None
                        },
                        Some((msgs, p3)) => {
                            let t = ProtoTopic { name, subscribers, msgs };
                            proof {
                                assert forall|v: TopicView, rest: Seq<u8>|
                                    topic_ok(v) && buf@.skip(pos as int) == #[trigger] (enc_topic(
                                        v,
                                    ) + rest) implies (t@ == v && p3 == pos + enc_topic(
                                    v,
                                ).len()) by {
                                    assert(enc_topic(v) + rest =~= enc_str(v.name) + (enc_str_list(
                                        v.subscribers,
                                    ) + (enc_msg_list(v.msgs) + rest)));
                                    lemma_skip_parts(
                                        buf@,
                                        pos as int,
                                        enc_str(v.name),
                                        enc_str_list(v.subscribers) + (enc_msg_list(v.msgs)
                                            + rest),
                                    );
                                    lemma_skip_parts(
                                        buf@,
                                        pos + enc_str(v.name).len(),
                                        enc_str_list(v.subscribers),
                                        enc_msg_list(v.msgs) + rest,
                                    );
                                    assert(t@ =~= v);
                                }
                            }
                            Some((t, p3))
                        },
                    }
                },
            }
        },
    }
}

/// Reads a topic list. Complete in the same sense as [`dec_str_list`].
#[verifier::rlimit(100)]
fn dec_topic_list(buf: &Vec<u8>, pos: usize) -> (r: Option<(Vec<ProtoTopic>, usize)>)
    requires
        pos <= buf@.len(),
    ensures
        r matches Some((v, p)) ==> pos <= p <= buf@.len(),
        forall|vs: Seq<TopicView>, rest: Seq<u8>|
            topics_ok(vs) && buf@.skip(pos as int) == #[trigger] (enc_topic_list(vs) + rest) ==> (
            r matches Some((v, p)) && proto_topic_views(v@) == vs && p == pos + enc_topic_list(vs).len()),
{
    match dec_u64(buf, pos) {
        None => {
            proof {
                assert forall|vs: Seq<TopicView>, rest: Seq<u8>|
                    topics_ok(vs) && buf@.skip(pos as int) == #[trigger] (enc_topic_list(vs)
                        + rest) implies false by {
                    assert(enc_topic_list(vs) + rest =~= enc_u64(vs.len() as u64) + (enc_topic_items(
                        vs,
                    ) + rest));
                }
            }
            None
        },
        Some((count, p1)) => {
            let mut acc: Vec<ProtoTopic> = Vec::new();
            let mut p: usize = p1;
            let mut k: u64 = 0;
            proof {
                assert forall|vs: Seq<TopicView>, rest: Seq<u8>|
                    topics_ok(vs) && buf@.skip(pos as int) == #[trigger] (enc_topic_list(vs)
                        + rest) implies (count == vs.len() as u64 && proto_topic_views(acc@) == vs.take(0)
                    && buf@.skip(p as int) == enc_topic_items(vs.skip(0)) + rest && p == pos + 8
                    + enc_topic_items(vs.take(0)).len()) by {
                    assert(enc_topic_list(vs) + rest =~= enc_u64(vs.len() as u64) + (enc_topic_items(
                        vs,
                    ) + rest));
                    lemma_skip_parts(
                        buf@,
                        pos as int,
                        enc_u64(vs.len() as u64),
                        enc_topic_items(vs) + rest,
                    );
                    assert(vs.take(0) =~= Seq::<TopicView>::empty());
                    assert(vs.skip(0) =~= vs);
                    assert(proto_topic_views(acc@) =~= vs.take(0));
                    assert(enc_topic_items(vs.take(0)) =~= Seq::<u8>::empty());
                }
            }
            while k < count
                invariant
                    pos <= p <= buf@.len(),
                    p1 == pos + 8,
                    forall|vs: Seq<TopicView>, rest: Seq<u8>|
                        topics_ok(vs) && buf@.skip(pos as int) == #[trigger] (enc_topic_list(vs)
                            + rest) ==> (count == vs.len() as u64 && (k as nat) <= vs.len()
                            && proto_topic_views(acc@) == vs.take(k as int) && buf@.skip(p as int)
                            == enc_topic_items(vs.skip(k as int)) + rest && p == pos + 8
                            + enc_topic_items(vs.take(k as int)).len()),
                decreases count - k,
            {
                match dec_topic(buf, p) {
                    None => {
                        proof {
                            assert forall|vs: Seq<TopicView>, rest: Seq<u8>|
                                topics_ok(vs) && buf@.skip(pos as int) == #[trigger] (enc_topic_list(
                                    vs,
                                ) + rest) implies false by {
                                assert((k as nat) < vs.len());
                                lemma_topic_items_first(vs, k as int);
                                assert(buf@.skip(p as int) =~= enc_topic(vs[k as int]) + (
                                enc_topic_items(vs.skip(k + 1int)) + rest));
                            }
                        }
                        return None;
                    },
                    Some((item, p2)) => {
                        let ghost old_p = p as int;
                        let ghost old_acc = acc@;
                        acc.push(item);
                        p = p2;
                        k = k + 1;
                        proof {
                            assert forall|vs: Seq<TopicView>, rest: Seq<u8>|
                                topics_ok(vs) && buf@.skip(pos as int) == #[trigger] (enc_topic_list(
                                    vs,
                                ) + rest) implies (count == vs.len() as u64 && (k as nat) <= vs.len()
                                && proto_topic_views(acc@) == vs.take(k as int) && buf@.skip(p as int)
                                == enc_topic_items(vs.skip(k as int)) + rest && p == pos + 8
                                + enc_topic_items(vs.take(k as int)).len()) by {
                                let kk = k - 1;
                                assert((kk as nat) < vs.len());
                                lemma_topic_items_first(vs, kk as int);
                                assert(buf@.skip(old_p) =~= enc_topic(vs[kk as int]) + (
                                enc_topic_items(vs.skip(kk + 1)) + rest));
                                assert(topic_ok(vs[kk as int]));
                                assert(item@ == vs[kk as int] && p2 == old_p + enc_topic(
                                    vs[kk as int],
                                ).len());
                                lemma_skip_parts(
                                    buf@,
                                    old_p,
                                    enc_topic(vs[kk as int]),
                                    enc_topic_items(vs.skip(kk + 1)) + rest,
                                );
                                assert(proto_topic_views(acc@) =~= proto_topic_views(old_acc).push(
                                    vs[kk as int],
                                ));
                                assert(vs.take(kk + 1) =~= vs.take(kk as int).push(
                                    vs[kk as int],
                                ));
                                lemma_enc_topic_items_snoc(vs.take(kk as int), vs[kk as int]);
                            }
                        }
                    },
                }
            }
            proof {
                assert forall|vs: Seq<TopicView>, rest: Seq<u8>|
                    topics_ok(vs) && buf@.skip(pos as int) == #[trigger] (enc_topic_list(vs)
                        + rest) implies (proto_topic_views(acc@) == vs && p == pos + enc_topic_list(
                    vs,
                ).len()) by {
                    assert((k as nat) == vs.len());
                    assert(vs.take(k as int) =~= vs);
                }
            }
            Some((acc, p))
        },
    }
}

/// Reads one acknowledgment record. Complete: on a buffer that continues
/// with `enc_ack(v)` (for any bounded `v`) it returns `v`.
fn dec_ack(buf: &Vec<u8>, pos: usize) -> (r: Option<(ProtoAck, usize)>)
    requires
        pos <= buf@.len(),
    ensures
        r matches Some((a, p)) ==> pos <= p <= buf@.len(),
        forall|v: AckView, rest: Seq<u8>|
            ack_ok(v) && buf@.skip(pos as int) == #[trigger] (enc_ack(v) + rest) ==> (r matches Some(
                (a, p),
            ) && a@ == v && p == pos + enc_ack(v).len()),
{
    match dec_str(buf, pos) {
        None => {
            proof {
                assert forall|v: AckView, rest: Seq<u8>|
                    ack_ok(v) && buf@.skip(pos as int) == #[trigger] (enc_ack(v) + rest) implies
                false by {
                    assert(enc_ack(v) + rest =~= enc_str(v.msg_id) + (enc_str_list(v.clients)
                        + rest));
                }
            }
            None
        },
        Some((msg_id, p1)) => {
            match dec_str_list(buf, p1) {
                None => {
                    proof {
                        assert forall|v: AckView, rest: Seq<u8>|
                            ack_ok(v) && buf@.skip(pos as int) == #[trigger] (enc_ack(v)
                                + rest) implies false by {
                            assert(enc_ack(v) + rest =~= enc_str(v.msg_id) + (enc_str_list(
                                v.clients,
                            ) + rest));
                            lemma_skip_parts(
                                buf@,
                                pos as int,
                                enc_str(v.msg_id),
                                enc_str_list(v.clients) + rest,
                            );
                        }
                    }
                    None
                },
                Some((clients, p2)) => {
                    let a = ProtoAck { msg_id, clients };
                    proof {
                        assert forall|v: AckView, rest: Seq<u8>|
                            ack_ok(v) && buf@.skip(pos as int) == #[trigger] (enc_ack(v)
                                + rest) implies (a@ == v && p2 == pos + enc_ack(v).len()) by {
                            assert(enc_ack(v) + rest =~= enc_str(v.msg_id) + (enc_str_list(
                                v.clients,
                            ) + rest));
                            lemma_skip_parts(
                                buf@,
                                pos as int,
                                enc_str(v.msg_id),
                                enc_str_list(v.clients) + rest,
                            );
                            assert(a@ =~= v);
                        }
                    }
                    Some((a, p2))
                },
            }
        },
    }
}

/// Reads an acknowledgment-record list. Complete in the same sense as
/// [`dec_str_list`].
#[verifier::rlimit(100)]
fn dec_ack_list(buf: &Vec<u8>, pos: usize) -> (r: Option<(Vec<ProtoAck>, usize)>)
    requires
        pos <= buf@.len(),
    ensures
        r matches Some((v, p)) ==> pos <= p <= buf@.len(),
        forall|vs: Seq<AckView>, rest: Seq<u8>|
            acks_ok(vs) && buf@.skip(pos as int) == #[trigger] (enc_ack_list(vs) + rest) ==> (
            r matches Some((v, p)) && proto_ack_views(v@) == vs && p == pos + enc_ack_list(vs).len()),
{
    match dec_u64(buf, pos) {
        None => {
            proof {
                assert forall|vs: Seq<AckView>, rest: Seq<u8>|
                    acks_ok(vs) && buf@.skip(pos as int) == #[trigger] (enc_ack_list(vs)
                        + rest) implies false by {
                    assert(enc_ack_list(vs) + rest =~= enc_u64(vs.len() as u64) + (enc_ack_items(
                        vs,
                    ) + rest));
                }
            }
            None
        },
        Some((count, p1)) => {
            let mut acc: Vec<ProtoAck> = Vec::new();
            let mut p: usize = p1;
            let mut k: u64 = 0;
            proof {
                assert forall|vs: Seq<AckView>, rest: Seq<u8>|
                    acks_ok(vs) && buf@.skip(pos as int) == #[trigger] (enc_ack_list(vs)
                        + rest) implies (count == vs.len() as u64 && proto_ack_views(acc@) == vs.take(0)
                    && buf@.skip(p as int) == enc_ack_items(vs.skip(0)) + rest && p == pos + 8
                    + enc_ack_items(vs.take(0)).len()) by {
                    assert(enc_ack_list(vs) + rest =~= enc_u64(vs.len() as u64) + (enc_ack_items(
                        vs,
                    ) + rest));
                    lemma_skip_parts(
                        buf@,
                        pos as int,
                        enc_u64(vs.len() as u64),
                        enc_ack_items(vs) + rest,
                    );
                    assert(vs.take(0) =~= Seq::<AckView>::empty());
                    assert(vs.skip(0) =~= vs);
                    assert(proto_ack_views(acc@) =~= vs.take(0));
                    assert(enc_ack_items(vs.take(0)) =~= Seq::<u8>::empty());
                }
            }
            while k < count
                invariant
                    pos <= p <= buf@.len(),
                    p1 == pos + 8,
                    forall|vs: Seq<AckView>, rest: Seq<u8>|
                        acks_ok(vs) && buf@.skip(pos as int) == #[trigger] (enc_ack_list(vs)
                            + rest) ==> (count == vs.len() as u64 && (k as nat) <= vs.len()
                            && proto_ack_views(acc@) == vs.take(k as int) && buf@.skip(p as int)
                            == enc_ack_items(vs.skip(k as int)) + rest && p == pos + 8
                            + enc_ack_items(vs.take(k as int)).len()),
                decreases count - k,
            {
                match dec_ack(buf, p) {
                    None => {
                        proof {
                            assert forall|vs: Seq<AckView>, rest: Seq<u8>|
                                acks_ok(vs) && buf@.skip(pos as int) == #[trigger] (enc_ack_list(
                                    vs,
                                ) + rest) implies false by {
                                assert((k as nat) < vs.len());
                                lemma_ack_items_first(vs, k as int);
                                assert(buf@.skip(p as int) =~= enc_ack(vs[k as int]) + (
                                enc_ack_items(vs.skip(k + 1int)) + rest));
                            }
                        }
                        return None;
                    },
                    Some((item, p2)) => {
                        let ghost old_p = p as int;
                        let ghost old_acc = acc@;
                        acc.push(item);
                        p = p2;
                        k = k + 1;
                        proof {
                            assert forall|vs: Seq<AckView>, rest: Seq<u8>|
                                acks_ok(vs) && buf@.skip(pos as int) == #[trigger] (enc_ack_list(
                                    vs,
                                ) + rest) implies (count == vs.len() as u64 && (k as nat) <= vs.len()
                                && proto_ack_views(acc@) == vs.take(k as int) && buf@.skip(p as int)
                                == enc_ack_items(vs.skip(k as int)) + rest && p == pos + 8
                                + enc_ack_items(vs.take(k as int)).len()) by {
                                let kk = k - 1;
                                assert((kk as nat) < vs.len());
                                lemma_ack_items_first(vs, kk as int);
                                assert(buf@.skip(old_p) =~= enc_ack(vs[kk as int]) + (
                                enc_ack_items(vs.skip(kk + 1)) + rest));
                                assert(ack_ok(vs[kk as int]));
                                assert(item@ == vs[kk as int] && p2 == old_p + enc_ack(
                                    vs[kk as int],
                                ).len());
                                lemma_skip_parts(
                                    buf@,
                                    old_p,
                                    enc_ack(vs[kk as int]),
                                    enc_ack_items(vs.skip(kk + 1)) + rest,
                                );
                                assert(proto_ack_views(acc@) =~= proto_ack_views(old_acc).push(
                                    vs[kk as int],
                                ));
                                assert(vs.take(kk + 1) =~= vs.take(kk as int).push(
                                    vs[kk as int],
                                ));
                                lemma_enc_ack_items_snoc(vs.take(kk as int), vs[kk as int]);
                            }
                        }
                    },
                }
            }
            proof {
                assert forall|vs: Seq<AckView>, rest: Seq<u8>|
                    acks_ok(vs) && buf@.skip(pos as int) == #[trigger] (enc_ack_list(vs)
                        + rest) implies (proto_ack_views(acc@) == vs && p == pos + enc_ack_list(
                    vs,
                ).len()) by {
                    assert((k as nat) == vs.len());
                    assert(vs.take(k as int) =~= vs);
                }
            }
            Some((acc, p))
        },
    }
}

/// Splitting a buffer that holds a whole encoded broker state.
proof fn lemma_broker_split(b: Seq<u8>, bv: BrokerView, rest: Seq<u8>)
    requires
        b == enc_broker(bv) + rest,
    ensures
        b.skip(0) == enc_topic_list(bv.topics) + (enc_ack_list(bv.acks) + rest),
        enc_topic_list(bv.topics).len() <= b.len(),
        b.skip(enc_topic_list(bv.topics).len() as int) == enc_ack_list(bv.acks) + rest,
{
    assert(b.skip(0) =~= b);
    assert(enc_broker(bv) + rest =~= enc_topic_list(bv.topics) + (enc_ack_list(bv.acks) + rest));
    lemma_skip_parts(b, 0, enc_topic_list(bv.topics), enc_ack_list(bv.acks) + rest);
}

impl ProtoBroker {
    /// Serializes the state under the snapshot schema.
    pub fn encode(&self) -> (r: Vec<u8>)
        ensures
            r@ == enc_broker(self@),
            broker_ok(self@),
    {
        let mut out: Vec<u8> = Vec::new();
        push_topic_list(&mut out, &self.topics);
        push_ack_list(&mut out, &self.acked_msgs);
        assert(out@ =~= enc_broker(self@));
        out
    }

    /// Deserializes a state from the snapshot schema; `None` means the
    /// buffer is corrupt. Complete: a buffer produced by [`Self::encode`]
    /// (possibly with trailing bytes) decodes to exactly the encoded state.
    #[verifier::rlimit(100)]
    pub fn decode(buf: &Vec<u8>) -> (r: Option<ProtoBroker>)
        ensures
            forall|bv: BrokerView, rest: Seq<u8>|
                broker_ok(bv) && buf@ == #[trigger] (enc_broker(bv) + rest) ==> (r matches Some(p)
                    && p@ == bv),
    {
        match dec_topic_list(buf, 0) {
            None => {
                proof {
                    assert forall|bv: BrokerView, rest: Seq<u8>|
                        broker_ok(bv) && buf@ == #[trigger] (enc_broker(bv) + rest) implies
                    false by {
                        lemma_broker_split(buf@, bv, rest);
                    }
                }
                None
            },
            Some((topics, p1)) => {
                match dec_ack_list(buf, p1) {
                    None => {
                        proof {
                            assert forall|bv: BrokerView, rest: Seq<u8>|
                                broker_ok(bv) && buf@ == #[trigger] (enc_broker(bv)
                                    + rest) implies false by {
                                lemma_broker_split(buf@, bv, rest);
                            }
                        }
                        None
                    },
                    Some((acked_msgs, _p2)) => {
                        let p = ProtoBroker { topics, acked_msgs };
                        proof {
                            assert forall|bv: BrokerView, rest: Seq<u8>|
                                broker_ok(bv) && buf@ == #[trigger] (enc_broker(bv)
                                    + rest) implies p@ == bv by {
                                lemma_broker_split(buf@, bv, rest);
                                assert(p@ =~= bv);
                            }
                        }
                        Some(p)
                    },
                }
            },
        }
    }
}

impl Broker {
    /// Serializes the whole broker state into one self-contained snapshot.
    pub fn snapshot(&self) -> (r: Vec<u8>)
        ensures
            r@ == enc_broker(self@),
            broker_ok(self@),
    {
        self.to_proto().encode()
    }

    /// Rebuilds a broker from a snapshot; `None` means the bytes are
    /// corrupt. On the output of [`Self::snapshot`] this returns the
    /// normalized encoded state, which for a well-formed broker is the
    /// broker itself ([`crate::proto::lemma_normalize_identity`]).
    pub fn restore(buf: &Vec<u8>) -> (r: Option<Broker>)
        ensures
            r matches Some(b) ==> b@.wf(),
            forall|bv: BrokerView, rest: Seq<u8>|
                broker_ok(bv) && buf@ == #[trigger] (enc_broker(bv) + rest) ==> (r matches Some(b)
                    && b@ == normalize_broker(bv)),
    {
        match ProtoBroker::decode(buf) {
            None => None,
            Some(p) => Some(Broker::from_proto(p)),
        }
    }
}

} // verus!
