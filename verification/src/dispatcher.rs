//! What the server does with each decoded command of a connection.

use std::sync::Arc;

use dashmap::DashMap;
use vstd::prelude::*;
use vstd::string::*;
use vstd::utf8::*;

use crate::broker::{BrokerCore, batch_fold, batch_sent, opt_subject_view, plan, plan_count, plan_sent_parts, routed_str, with_published};
use crate::codec::{put_u64, u64_be};
use crate::command::{BrokerCommand, PublishCommand};
use crate::consumer::{ConsumerManager, ConsumerView, ManagerView, acked, filed, has_consumer, key_of};
use crate::memory::{empty_stream, has_stream, named};
use crate::registry::{find_id, has_id};
use crate::queue_group::{QueueGroupName, valid_group_name};
use crate::stream::StreamConfig;
use crate::stream_cmd::{CreateStreamCommand, StreamInfoResponse, StreamInfoView, stream_info_bytes, stream_info_spec};
use crate::subject_pattern::{SubjectPattern, parsed_pattern, valid_pattern};
use crate::delivery::DeliveryHandle;
use crate::error::store_error_text;
use crate::frame::{Frame, FrameHeader, FrameType, frame_code};
use crate::id::{ConnectionId, SubscriptionId};
use crate::message::{PublishItem, opt_headers_view};
use crate::metrics::{logged_since, outcomes_recorded};
use crate::subject::{SubjectView, parsed_subject, subject_parse_result, valid_subject};
use crate::text::{concat_text, decimal, text_then_number, trim, utf8_text};
use crate::broker::batch_subjects;

verus! {

/// The map behind `SubConsumerMap`.
pub type ConsumerBindings = DashMap<u64, (String, String)>;

/// What the binding map holds: subscription id to stream name and consumer
/// name.
pub uninterp spec fn bound_consumers(m: ConsumerBindings) -> Map<u64, (Seq<char>, Seq<char>)>;

/// `DashMap::new`: an empty map.
#[verifier::external_body]
fn bindings_new() -> (m: ConsumerBindings)
    ensures
        bound_consumers(m) =~= Map::empty(),
{
    DashMap::new()
}

/// `DashMap::insert`: binds `key` to `value`, replacing an earlier binding.
#[verifier::external_body]
fn bindings_insert(m: &mut ConsumerBindings, key: u64, value: (String, String))
    ensures
        bound_consumers(*final(m)) == bound_consumers(*old(m)).insert(key, (value.0@, value.1@)),
{
    m.insert(key, value);
}

/// `DashMap::remove`: unbinds `key`, giving back its binding if it had one.
#[verifier::external_body]
fn bindings_remove(m: &mut ConsumerBindings, key: u64) -> (r: Option<(String, String)>)
    ensures
        bound_consumers(*final(m)) == bound_consumers(*old(m)).remove(key),
        match r {
            Some(v) => bound_consumers(*old(m)).contains_key(key) && bound_consumers(*old(m))[key] == (v.0@, v.1@),
            None => !bound_consumers(*old(m)).contains_key(key),
        },
{
    m.remove(&key).map(|kv| kv.1)
}

/// `DashMap::get`: a copy of the binding of `key`, if it has one.
#[verifier::external_body]
fn bindings_get(m: &ConsumerBindings, key: u64) -> (r: Option<(String, String)>)
    ensures
        match r {
            Some(v) => bound_consumers(*m).contains_key(key) && bound_consumers(*m)[key] == (v.0@, v.1@),
            None => !bound_consumers(*m).contains_key(key),
        },
{
    m.get(&key).map(|v| v.clone())
}

/// Which stream and consumer each subscription is bound to, so that
/// acknowledgements reach the right consumer.
pub struct SubConsumerMap {
    map: ConsumerBindings,
}

impl View for SubConsumerMap {
    type V = Map<u64, (Seq<char>, Seq<char>)>;

    closed spec fn view(&self) -> Map<u64, (Seq<char>, Seq<char>)> {
        bound_consumers(self.map)
    }
}

impl SubConsumerMap {
    /// No bindings.
    pub fn new() -> (r: SubConsumerMap)
        ensures
            r@ == Map::<u64, (Seq<char>, Seq<char>)>::empty(),
    {
        SubConsumerMap { map: bindings_new() }
    }

    /// Binds subscription `sub_id` to consumer `consumer` of `stream`.
    pub fn insert(&mut self, sub_id: u64, stream: String, consumer: String)
        ensures
            final(self)@ == old(self)@.insert(sub_id, (stream@, consumer@)),
    {
        bindings_insert(&mut self.map, sub_id, (stream, consumer));
    }

    /// Unbinds subscription `sub_id`, giving back its binding.
    pub fn remove(&mut self, sub_id: u64) -> (r: Option<(String, String)>)
        ensures
            final(self)@ == old(self)@.remove(sub_id),
            match r {
                Some(v) => old(self)@.contains_key(sub_id) && old(self)@[sub_id] == (v.0@, v.1@),
                None => !old(self)@.contains_key(sub_id),
            },
    {
        bindings_remove(&mut self.map, sub_id)
    }

    /// The binding of subscription `sub_id`.
    pub fn get(&self, sub_id: u64) -> (r: Option<(String, String)>)
        ensures
            match r {
                Some(v) => self@.contains_key(sub_id) && self@[sub_id] == (v.0@, v.1@),
                None => !self@.contains_key(sub_id),
            },
    {
        bindings_get(&self.map, sub_id)
    }
}

impl Default for SubConsumerMap {
    /// No bindings.
    fn default() -> (r: Self)
        ensures
            r@ == Map::<u64, (Seq<char>, Seq<char>)>::empty(),
    {
        SubConsumerMap::new()
    }
}

/// The subject a published subject's bytes name, when they are UTF-8 text
/// that parses as a subject.
pub open spec fn pub_subject(bytes: Seq<u8>) -> Option<SubjectView> {
    if valid_utf8(bytes) && valid_subject(trim(decode_utf8(bytes))) {
        Some(parsed_subject(decode_utf8(bytes)))
    } else {
        None
    }
}

/// The reply subject that optional reply bytes name: none where they are
/// absent or do not name a subject.
pub open spec fn reply_of(rb: Option<Vec<u8>>) -> Option<SubjectView> {
    match rb {
        Some(b) => pub_subject(b@),
        None => None,
    }
}

/// The subjects named by the subject bytes that name one, in order.
pub open spec fn subjects_of(ss: Seq<Seq<u8>>) -> Seq<SubjectView>
    decreases ss.len(),
{
    if ss.len() == 0 {
        Seq::empty()
    } else {
        subjects_of(ss.drop_last()) + match pub_subject(ss.last()) {
            Some(s) => seq![s],
            None => Seq::empty(),
        }
    }
}

/// The subject bytes of publishes.
pub open spec fn pub_subject_bytes(ps: Seq<PublishCommand>) -> Seq<Seq<u8>> {
    ps.map_values(|p: PublishCommand| p.subject@)
}

/// The subjects of the publishes that name one, in order.
pub open spec fn batch_pub_subjects(ps: Seq<PublishCommand>) -> Seq<SubjectView> {
    subjects_of(pub_subject_bytes(ps))
}

/// Whether batch item `it` carries publish `p`, whose subject bytes name
/// subject `s`: the subject, the payload, the reply subject where its
/// bytes name one, and the headers.
pub open spec fn item_carries(it: PublishItem, p: PublishCommand, s: SubjectView) -> bool {
    &&& it.subject@ == s
    &&& it.payload@ == p.payload@
    &&& opt_subject_view(it.reply_to) == reply_of(p.reply_to)
    &&& opt_headers_view(it.headers) == opt_headers_view(p.headers)
}

/// Whether `items` carry, in order, the publishes among `ps` whose subject
/// bytes name a subject.
pub open spec fn items_carry(ps: Seq<PublishCommand>, items: Seq<PublishItem>) -> bool
    decreases ps.len(),
{
    if ps.len() == 0 {
        items.len() == 0
    } else {
        match pub_subject(ps.last().subject@) {
            Some(s) => items.len() > 0 && items_carry(ps.drop_last(), items.drop_last()) && item_carries(
                items.last(),
                ps.last(),
                s,
            ),
            None => items_carry(ps.drop_last(), items),
        }
    }
}

/// Publishes a batch: each publish whose subject bytes are UTF-8 text that
/// parses as a subject goes out, with its reply subject where that parses
/// too; the others are skipped. Nothing happens for an empty batch.
pub fn dispatch_publish_batch<D: DeliveryHandle>(
    broker: &mut BrokerCore<D>,
    conn_id: ConnectionId,
    publishes: Vec<PublishCommand>,
)
    requires
        old(broker).wf(),
    ensures
        final(broker).wf(),
        final(broker).subs() == old(broker).subs(),
        final(broker).router_view() == old(broker).router_view(),
        final(broker).next_id() == old(broker).next_id(),
        publishes@.len() == 0 ==> final(broker).groups() == old(broker).groups()
            && final(broker).counters() == old(broker).counters(),
        publishes@.len() > 0 ==> {
            let subjects = batch_pub_subjects(publishes@);
            let fold = batch_fold(old(broker).subs(), old(broker).router_view(), (old(broker).groups(), 0), subjects);
            &&& final(broker).groups() == fold.0
            &&& outcomes_recorded(with_published(old(broker).counters(), subjects.len() as u64), final(broker).counters(), fold.1)
            &&& final(broker).sent_log().len() >= old(broker).sent_log().len()
            &&& final(broker).sent_log().take(old(broker).sent_log().len() as int) == old(broker).sent_log()
            &&& final(broker).outcome_log().len() == old(broker).outcome_log().len() + fold.1
            &&& logged_since(
                with_published(old(broker).counters(), subjects.len() as u64),
                final(broker).counters(),
                old(broker).outcome_log(),
                final(broker).outcome_log(),
            )
            &&& exists|items: Seq<PublishItem>| #[trigger] items_carry(publishes@, items)
                && final(broker).sent_log().skip(old(broker).sent_log().len() as int).to_multiset() == batch_sent(
                    old(broker).subs(),
                    old(broker).router_view(),
                    old(broker).groups(),
                    items,
                ).to_multiset()
        },
{
    if publishes.len() == 0 {
        return;
    }
    let ghost ps = publishes@;
    let ghost b0 = *broker;
    let mut rest = publishes;
    let mut items: Vec<PublishItem> = Vec::new();
    let ghost mut k: int = 0;
    assert(pub_subject_bytes(ps.take(0)) =~= Seq::<Seq<u8>>::empty());
    assert(crate::broker::batch_subjects(items@) =~= Seq::<SubjectView>::empty());
    while rest.len() > 0
        invariant
            broker.wf(),
            broker.subs() == b0.subs(),
            broker.router_view() == b0.router_view(),
            broker.groups() == b0.groups(),
            broker.counters() == b0.counters(),
            broker.next_id() == b0.next_id(),
            0 <= k <= ps.len(),
            rest@ == ps.skip(k),
            crate::broker::batch_subjects(items@) == subjects_of(pub_subject_bytes(ps.take(k))),
            items_carry(ps.take(k), items@),
            broker.sent_log() == b0.sent_log(),
            broker.outcome_log() == b0.outcome_log(),
        decreases rest@.len(),
    {
        let p = rest.remove(0);
        proof {
            assert(p == ps[k]);
            assert(rest@ =~= ps.skip(k + 1));
            assert(pub_subject_bytes(ps.take(k + 1)).drop_last() =~= pub_subject_bytes(ps.take(k)));
            assert(pub_subject_bytes(ps.take(k + 1)).last() == ps[k].subject@);
            assert(ps.take(k + 1).drop_last() =~= ps.take(k));
            assert(ps.take(k + 1).last() == ps[k]);
        }
        let ghost items0 = items@;
        match utf8_text(p.subject.as_slice()) {
            Some(text) => match broker.parse_subject(text.as_str()) {
                Ok(subject) => {
                    let reply_to = match &p.reply_to {
                        Some(rb) => match utf8_text(rb.as_slice()) {
                            Some(rt) => match broker.parse_subject(rt.as_str()) {
                                Ok(r) => Some(r),
                                Err(_) => None,
                            },
                            None => None,
                        },
                        None => None,
                    };
                    let ghost sv = subject@;
                    items.push(PublishItem { subject, payload: p.payload, reply_to, headers: p.headers });
                    proof {
                        assert(crate::broker::batch_subjects(items@) =~= crate::broker::batch_subjects(items0).push(sv));
                        assert(items@.drop_last() =~= items0);
                        assert(item_carries(items@.last(), ps[k], sv));
                    }
                },
                Err(_) => {},
            },
            None => {},
        }
        proof {
            k = k + 1;
        }
    }
    assert(ps.take(ps.len() as int) =~= ps);
    let ghost its = items@;
    broker.publish_batch(items);
    assert(items_carry(ps, its));
}

/// A reply frame: of type `t`, for correlation id `corr`, with no header
/// section and the payload `p`.
pub open spec fn is_reply(f: Frame, t: FrameType, corr: u64, p: Seq<u8>) -> bool {
    &&& f.header == (FrameHeader { payload_len: p.len() as u32, ..FrameHeader::new_spec(frame_code(t), corr) })
    &&& f.headers@.len() == 0
    &&& f.payload@ == p
}

/// A reply frame with the given payload.
pub fn reply_frame(t: FrameType, corr: u64, payload: Vec<u8>) -> (r: Frame)
    ensures
        is_reply(r, t, corr, payload@),
{
    Frame::new(t, corr).with_payload(payload)
}

/// A reply frame whose payload is the UTF-8 bytes of `text`.
pub fn text_reply(t: FrameType, corr: u64, text: &str) -> (r: Frame)
    ensures
        is_reply(r, t, corr, encode_utf8(text@)),
{
    let mut payload: Vec<u8> = Vec::new();
    crate::codec::put_slice(&mut payload, text.as_bytes());
    assert(payload@ =~= encode_utf8(text@));
    reply_frame(t, corr, payload)
}

/// A reply frame whose payload is the eight bytes of `id`.
pub fn id_reply(t: FrameType, corr: u64, id: u64) -> (r: Frame)
    ensures
        is_reply(r, t, corr, u64_be(id)),
{
    let mut payload: Vec<u8> = Vec::new();
    put_u64(&mut payload, id);
    assert(payload@ =~= u64_be(id));
    reply_frame(t, corr, payload)
}

/// The consumer name a subscription is bound to.
pub open spec fn consumer_name_for(conn: u64, sub: u64) -> Seq<char> {
    "conn-"@ + decimal(conn as nat) + "-sub-"@ + decimal(sub as nat)
}

/// The consumer name for subscription `sub` of connection `conn`.
fn consumer_name(conn: u64, sub: u64) -> (r: String)
    ensures
        r@ == consumer_name_for(conn, sub),
{
    let a = text_then_number("conn-", conn);
    let b = concat_text(a.as_str(), "-sub-");
    text_then_number(b.as_str(), sub)
}

/// The consumer an acknowledgement with correlation id `corr` is for: the
/// one bound to subscription `corr`, or `default`.
pub open spec fn ack_consumer(b: Map<u64, (Seq<char>, Seq<char>)>, corr: u64) -> Seq<char> {
    if b.contains_key(corr) { b[corr].1 } else { "default"@ }
}

/// An acknowledgement carrying a subscription's id as its correlation id
/// reaches the consumer that the subscription was bound to when it was
/// made; without a binding it goes to `default`.
pub proof fn lemma_ack_reaches_bound_consumer(
    m: Map<u64, (Seq<char>, Seq<char>)>,
    sub_id: u64,
    stream: Seq<char>,
    consumer: Seq<char>,
    corr: u64,
)
    ensures
        ack_consumer(m.insert(sub_id, (stream, consumer)), sub_id) == consumer,
        !m.contains_key(corr) ==> ack_consumer(m, corr) == "default"@,
        ack_consumer(m.remove(corr), corr) == "default"@,
{
}

/// The queue group a SUB names, where its name is valid.
pub open spec fn group_of(q: Option<String>) -> Option<Seq<char>> {
    match q {
        Some(n) => if valid_group_name(trim(n@)) { Some(trim(n@)) } else { None },
        None => None,
    }
}

/// The limits a CREATE_STREAM command asks for.
pub open spec fn create_config(max_msgs: u64, max_bytes: u64, max_age_secs: u64) -> StreamConfig {
    StreamConfig { max_msgs, max_bytes, max_age_secs }
}

/// CREATE_STREAM law: on a store without a stream of that name, the
/// command adds one stream, named as the command says and empty, whose
/// limits are exactly the command's `max_msgs`, `max_bytes` and
/// `max_age_secs`; the STREAM_INFO reply reads back as that stream's
/// name, counters and the same three limits. Nothing else changes.
pub proof fn lemma_create_stream_limits<D: DeliveryHandle>(
    b0: BrokerCore<D>,
    b1: BrokerCore<D>,
    s0: ManagerView,
    s1: ManagerView,
    m0: Map<u64, (Seq<char>, Seq<char>)>,
    m1: Map<u64, (Seq<char>, Seq<char>)>,
    conn_id: ConnectionId,
    c: CreateStreamCommand,
    correlation_id: u64,
    frames: Seq<Frame>,
)
    requires
        dispatched(b0, b1, s0, s1, m0, m1, conn_id, BrokerCommand::CreateStream(c), correlation_id, frames),
        !has_stream(s0.streams, c.name@),
        encode_utf8(c.name@).len() < 256,
    ensures
        s1.streams.len() == s0.streams.len() + 1,
        s1.streams.drop_last() == s0.streams,
        s1.streams.last().name == c.name@,
        s1.streams.last().config.max_msgs == c.max_msgs,
        s1.streams.last().config.max_bytes == c.max_bytes,
        s1.streams.last().config.max_age_secs == c.max_age_secs,
        s1.streams.last().messages.len() == 0,
        s1.consumers == s0.consumers,
        b1 == b0,
        frames.len() == 1,
        frames[0].header.frame_type == frame_code(FrameType::StreamInfo),
        stream_info_spec(frames[0].payload@) matches Some(v) && v.name == c.name@ && v.messages == 0
            && v.max_msgs == c.max_msgs && v.max_bytes == c.max_bytes && v.max_age_secs == c.max_age_secs,
{
    let config = create_config(c.max_msgs, c.max_bytes, c.max_age_secs);
    assert(s1.streams.drop_last() =~= s0.streams);
    crate::stream_cmd::lemma_stream_info_roundtrip(created_info(c.name@, config));
}

/// The STREAM_INFO reply for a new, empty stream.
pub open spec fn created_info(name: Seq<char>, config: StreamConfig) -> StreamInfoView {
    StreamInfoView {
        name,
        messages: 0,
        bytes: 0,
        first_seq: 1,
        last_seq: 0,
        max_msgs: config.max_msgs,
        max_bytes: config.max_bytes,
        max_age_secs: config.max_age_secs,
    }
}

/// What carrying out `cmd` does: broker `b0` becomes `b1`, the store's
/// view `s0` becomes `s1`, the bindings `m0` become `m1`, and `frames` are
/// the replies (see `dispatch`).
pub open spec fn dispatched<D: DeliveryHandle>(
    b0: BrokerCore<D>,
    b1: BrokerCore<D>,
    s0: ManagerView,
    s1: ManagerView,
    m0: Map<u64, (Seq<char>, Seq<char>)>,
    m1: Map<u64, (Seq<char>, Seq<char>)>,
    conn_id: ConnectionId,
    cmd: BrokerCommand,
    correlation_id: u64,
    frames: Seq<Frame>,
) -> bool {
    match cmd {
        BrokerCommand::Publish(p) => {
            &&& frames.len() == 0
            &&& s1 == s0
            &&& m1 == m0
            &&& b1.subs() == b0.subs()
            &&& b1.next_id() == b0.next_id()
            &&& b1.router_view() == b0.router_view()
            &&& if valid_utf8(p.subject@) {
                let ids = routed_str(b0.router_view(), decode_utf8(p.subject@));
                &&& b1.groups() == plan(b0.subs(), b0.groups(), ids).groups
                &&& outcomes_recorded(with_published(b0.counters(), 1), b1.counters(),
                    plan_count(plan(b0.subs(), b0.groups(), ids)))
                &&& b1.sent_log() == b0.sent_log() + plan_sent_parts(
                    plan(b0.subs(), b0.groups(), ids),
                    parsed_subject(decode_utf8(p.subject@)),
                    p.payload@,
                    reply_of(p.reply_to),
                    opt_headers_view(p.headers),
                )
                &&& b1.outcome_log().len() == b0.outcome_log().len() + plan_count(plan(b0.subs(), b0.groups(), ids))
                &&& logged_since(with_published(b0.counters(), 1), b1.counters(), b0.outcome_log(), b1.outcome_log())
            } else {
                b1.groups() == b0.groups() && b1.counters() == b0.counters() && b1.sent_log() == b0.sent_log()
                    && b1.outcome_log() == b0.outcome_log()
            }
        },
        BrokerCommand::Subscribe(s) => {
            &&& s1 == s0
            &&& b1.router_view().trie_count() <= b0.router_view().trie_count() + 1
            &&& if valid_pattern(trim(s.subject_pattern@)) {
                let id = b0.next_id();
                &&& b1.subs().drop_last() == b0.subs()
                &&& b1.subs().len() == b0.subs().len() + 1
                &&& b1.subs().last().id == SubscriptionId(id)
                &&& b1.subs().last().connection_id == conn_id
                &&& b1.subs().last().pattern@ == parsed_pattern(s.subject_pattern@)
                &&& (match b1.subs().last().queue_group {
                    Some(q) => Some(q@),
                    None => None,
                }) == group_of(s.queue_group)
                &&& b1.next_id() == id + 1
                &&& m1 == m0.insert(id, (s.subject_pattern@, consumer_name_for(conn_id.0, id)))
                &&& frames.len() == 1 && is_reply(frames[0], FrameType::Suback, correlation_id, u64_be(id))
            } else {
                &&& frames.len() == 0
                &&& m1 == m0
                &&& b1.subs() == b0.subs()
                &&& b1.groups() == b0.groups()
                &&& b1.counters() == b0.counters()
                &&& b1.next_id() == b0.next_id()
            }
        },
        BrokerCommand::Unsubscribe(u) => {
            &&& s1 == s0
            &&& m1 == m0.remove(u.subscription_id)
            &&& b1.next_id() == b0.next_id()
            &&& b1.router_view().trie_count() <= b0.router_view().trie_count()
            &&& has_id(b0.subs(), SubscriptionId(u.subscription_id)) ==> b1.subs()
                == b0.subs().remove(find_id(b0.subs(), SubscriptionId(u.subscription_id)))
            &&& !has_id(b0.subs(), SubscriptionId(u.subscription_id)) ==> b1.subs() == b0.subs()
            &&& frames.len() == 1 && is_reply(frames[0], FrameType::Unsuback, correlation_id, u64_be(u.subscription_id))
        },
        BrokerCommand::CreateStream(c) => {
            let config = create_config(c.max_msgs, c.max_bytes, c.max_age_secs);
            &&& m1 == m0
            &&& b1 == b0
            &&& s1.consumers == s0.consumers
            &&& frames.len() == 1
            &&& if has_stream(s0.streams, c.name@) {
                &&& s1 == s0
                &&& is_reply(frames[0], FrameType::Error, 0, encode_utf8("create stream error: "@ + "stream already exists: "@ + c.name@))
            } else {
                &&& s1.streams == s0.streams.push(empty_stream(c.name@, config))
                &&& is_reply(frames[0], FrameType::StreamInfo, 0, stream_info_bytes(created_info(c.name@, config)))
            }
        },
        BrokerCommand::DeleteStream(c) => {
            &&& m1 == m0
            &&& b1 == b0
            &&& s1.consumers == s0.consumers
            &&& forall|i: int| named(s0.streams, c.name@, i) ==> s1.streams == s0.streams.remove(i)
            &&& !has_stream(s0.streams, c.name@) ==> s1.streams == s0.streams
            &&& frames.len() == 1 && is_reply(frames[0], FrameType::StreamInfo, 0, Seq::empty())
        },
        BrokerCommand::Ack(a) => {
            let key = key_of(a.stream@, ack_consumer(m0, correlation_id));
            &&& frames.len() == 0
            &&& m1 == m0
            &&& b1 == b0
            &&& s1.streams == s0.streams
            &&& !has_consumer(s0.consumers, key) ==> s1 == s0
            &&& forall|j: int| #[trigger] filed(s0.consumers, key, j) ==> {
                let c = s0.consumers[j].1;
                if c.state.pending_acks.contains_key(a.sequence) {
                    s1.consumers == s0.consumers.update(
                        j,
                        (key, ConsumerView { state: acked(c.state, a.sequence, c.ack_policy), ..c }),
                    )
                } else {
                    s1 == s0
                }
            }
        },
        _ => {
            &&& frames.len() == 0
            &&& s1 == s0
            &&& m1 == m0
            &&& b1 == b0
        },
    }
}

/// Carries out a command of a connected session and gives the frames to
/// send back:
/// - PUB: publishes when the subject is UTF-8 text; its reply subject goes
///   along where it parses;
/// - SUB: where the pattern parses, subscribes (in the queue group, where
///   its name is valid), binds the subscription to a consumer named after
///   the connection and the subscription, and answers SUBACK with the id;
/// - UNSUB: unbinds and unsubscribes, and answers UNSUBACK with the id;
/// - CREATE_STREAM: creates the stream and answers STREAM_INFO, or ERROR;
/// - DELETE_STREAM: deletes the stream and answers an empty STREAM_INFO;
/// - ACK: acknowledges for the consumer bound to the correlation id, or
///   `default`;
/// - NACK, CONNECT, PING: nothing here.
pub fn dispatch<D: DeliveryHandle>(
    broker: &mut BrokerCore<D>,
    store: &mut ConsumerManager,
    conn_id: ConnectionId,
    cmd: BrokerCommand,
    correlation_id: u64,
    delivery: &Arc<D>,
    sub_consumers: &mut SubConsumerMap,
) -> (r: Vec<Frame>)
    requires
        old(broker).wf(),
        old(store).wf(),
        old(broker).next_id() < u64::MAX,
        old(broker).router_view().trie_count() < usize::MAX,
        forall|j: int| 0 <= j < old(store)@.consumers.len() ==> (#[trigger] old(store)@.consumers[j]).1.state.acked_count < u64::MAX,
    ensures
        final(broker).wf(),
        final(store).wf(),
        dispatched(*old(broker), *final(broker), old(store)@, final(store)@, old(sub_consumers)@, final(sub_consumers)@, conn_id, cmd, correlation_id, r@),
{
    let mut out: Vec<Frame> = Vec::new();
    match cmd {
        BrokerCommand::Publish(p) => {
            let subject_str = match utf8_text(p.subject.as_slice()) {
                Some(t) => t,
                None => {
                    return out;
                },
            };
            let reply_to = match &p.reply_to {
                Some(rb) => match utf8_text(rb.as_slice()) {
                    Some(rt) => match broker.parse_subject(rt.as_str()) {
                        Ok(r) => Some(r),
                        Err(_) => None,
                    },
                    None => None,
                },
                None => None,
            };
            broker.publish_with_str(subject_str.as_str(), p.payload, reply_to, p.headers);
        },
        BrokerCommand::Subscribe(s) => {
            match SubjectPattern::parse(s.subject_pattern.as_str()) {
                Ok(pattern) => {
                    let qg = match &s.queue_group {
                        Some(q) => match QueueGroupName::new(q.as_str()) {
                            Ok(g) => Some(g),
                            Err(_) => None,
                        },
                        None => None,
                    };
                    let sub_id = broker.subscribe(conn_id, pattern, qg, delivery.clone());
                    let name = consumer_name(conn_id.0, sub_id.0);
                    sub_consumers.insert(sub_id.0, s.subject_pattern, name);
                    out.push(id_reply(FrameType::Suback, correlation_id, sub_id.0));
                },
                Err(_) => {},
            }
        },
        BrokerCommand::Unsubscribe(u) => {
            let sub_id = SubscriptionId::new(u.subscription_id);
            let _ = sub_consumers.remove(u.subscription_id);
            broker.unsubscribe(conn_id, sub_id);
            out.push(id_reply(FrameType::Unsuback, correlation_id, u.subscription_id));
        },
        BrokerCommand::CreateStream(c) => {
            let config = StreamConfig::default()
                .with_max_msgs(c.max_msgs)
                .with_max_bytes(c.max_bytes)
                .with_max_age_secs(c.max_age_secs);
            let result = store.store_mut().create_stream(c.name.as_str(), config);
            match result {
                Ok(info) => {
                    let resp = StreamInfoResponse {
                        name: info.name,
                        messages: info.state.messages,
                        bytes: info.state.bytes,
                        first_seq: info.state.first_seq,
                        last_seq: info.state.last_seq,
                        max_msgs: info.config.max_msgs,
                        max_bytes: info.config.max_bytes,
                        max_age_secs: info.config.max_age_secs,
                    };
                    out.push(reply_frame(FrameType::StreamInfo, 0, resp.encode_payload()));
                },
                Err(e) => {
                    let msg = e.to_string();
                    let text = concat_text("create stream error: ", msg.as_str());
                    assert(text@ =~= "create stream error: "@ + ("stream already exists: "@ + c.name@));
                    assert(text@ =~= "create stream error: "@ + "stream already exists: "@ + c.name@);
                    out.push(text_reply(FrameType::Error, 0, text.as_str()));
                },
            }
        },
        BrokerCommand::DeleteStream(c) => {
            let _ = store.store_mut().delete_stream(c.name.as_str());
            out.push(reply_frame(FrameType::StreamInfo, 0, Vec::new()));
        },
        BrokerCommand::Ack(a) => {
            let consumer = match sub_consumers.get(correlation_id) {
                Some(binding) => binding.1,
                None => "default".to_owned(),
            };
            proof {
                reveal_strlit("default");
            }
            let _ = store.ack(a.stream.as_str(), consumer.as_str(), a.sequence);
        },
        _ => {},
    }
    out
}

} // verus!
