//! The broker: subscriptions, queue groups, publishing and delivery.

use std::sync::Arc;

use dashmap::DashMap;
use vstd::prelude::*;

use crate::delivery::{DeliveryHandle, DeliveryMessage, DeliveryStatus};
use crate::error::CoreError;
use crate::id::{ConnectionId, IdGenerator, MessageId, SubscriptionId};
use crate::message::{HeaderMap, Message, PublishItem, clone_opt_headers, opt_headers_view};
use crate::metrics::{
    CoreMetrics, MetricsSnapshot, snapshot_of, zero_snapshot, lemma_outcomes_compose, lemma_outcomes_none, lemma_wrap_add_n, outcomes_recorded, logged_since, lemma_logged_compose, lemma_logged_none, trues,
    wrap_add, wrap_dec, wrap_n, wrap_sub_n, lemma_wrap_sub_step,
};
use crate::queue_group::QueueGroupName;
use crate::registry::{
    SubscriptionRegistry, find_id, has_id, ids_unique, off_conn, on_conn, pair_of, pairs_of, sub_ids,
};
use crate::routing::{RoutingEngine, exact_ids, lemma_matching_empty, raw_matches, routed};
use crate::subject::{
    Subject, SubjectView, parsed_subject, subject_parse_result, subject_wf, valid_subject,
};
use crate::subject_pattern::SubjectPattern;
use crate::subscription::{QueueGroupKey, Subscription, clone_key, key_view};
use crate::text::{str_eq, trim};
use crate::trie::{not_id, remove_id};
use crate::trie::{MatchResult, ids_of, matching};

verus! {

// ---------------------------------------------------------------------------
// The subject cache.
// ---------------------------------------------------------------------------

/// Parsed subjects by their input text.
pub type SubjectCache = DashMap<String, Subject>;

/// The contents of the subject cache: input text to the subject parsed from it.
pub uninterp spec fn cached_subjects(m: SubjectCache) -> Map<Seq<char>, SubjectView>;

/// `DashMap::new`: an empty cache.
#[verifier::external_body]
fn cache_new() -> (m: SubjectCache)
    ensures
        cached_subjects(m) =~= Map::empty(),
{
    DashMap::new()
}

/// `DashMap::get`: a copy of the subject cached under `key`, if any.
#[verifier::external_body]
fn cache_get(m: &SubjectCache, key: &str) -> (r: Option<Subject>)
    ensures
        match r {
            Some(s) => cached_subjects(*m).dom().contains(key@) && s@ == cached_subjects(*m)[key@],
            None => !cached_subjects(*m).dom().contains(key@),
        },
{
    match m.get(key) {
        Some(entry) => Some(entry.value().clone()),
        None => None,
    }
}

/// `DashMap::entry(key).or_insert(value)`: caches `value` under `key`
/// unless something is cached there already.
#[verifier::external_body]
fn cache_insert(m: &mut SubjectCache, key: String, value: Subject)
    ensures
        cached_subjects(*final(m)) == (if cached_subjects(*old(m)).dom().contains(key@) {
            cached_subjects(*old(m))
        } else {
            cached_subjects(*old(m)).insert(key@, value@)
        }),
{
    m.entry(key).or_insert(value);
}

/// Every cached subject is what parsing its key gives.
pub open spec fn cache_sound(c: Map<Seq<char>, SubjectView>) -> bool {
    forall|k: Seq<char>| #[trigger]
        c.dom().contains(k) ==> valid_subject(trim(k)) && c[k] == parsed_subject(k)
}

// ---------------------------------------------------------------------------
// Queue groups.
// ---------------------------------------------------------------------------

/// The members of one queue group and its round-robin position.
pub struct QueueGroupState {
    key: QueueGroupKey,
    members: Vec<SubscriptionId>,
    current_index: usize,
}

/// The abstract value of a queue group.
pub struct GroupView {
    pub key: (Seq<char>, Seq<char>),
    pub members: Seq<SubscriptionId>,
    pub index: usize,
}

/// The abstract value of a queue group's state.
spec fn group_view(g: QueueGroupState) -> GroupView {
    GroupView { key: (g.key.0@, g.key.1@), members: g.members@, index: g.current_index }
}

/// The abstract values of the queue groups.
spec fn groups_view(gs: Seq<QueueGroupState>) -> Seq<GroupView> {
    gs.map_values(|g: QueueGroupState| group_view(g))
}

/// No two queue groups share a key.
pub open spec fn group_keys_unique(gs: Seq<GroupView>) -> bool {
    forall|i: int, j: int|
        0 <= i < gs.len() && 0 <= j < gs.len() && i != j ==> #[trigger] gs[i].key != #[trigger] gs[j].key
}

/// Some queue group has key `k`.
pub open spec fn has_group(gs: Seq<GroupView>, k: (Seq<char>, Seq<char>)) -> bool {
    exists|i: int| 0 <= i < gs.len() && #[trigger] gs[i].key == k
}

/// The position of the queue group with key `k`.
pub open spec fn group_pos(gs: Seq<GroupView>, k: (Seq<char>, Seq<char>)) -> int {
    choose|i: int| 0 <= i < gs.len() && #[trigger] gs[i].key == k
}

/// `i + 1`, wrapping at the top of the range as an atomic counter does.
pub open spec fn wrap_inc(i: usize) -> usize {
    if i == usize::MAX {
        0
    } else {
        (i + 1) as usize
    }
}

/// One round-robin choice in the group with key `k`: the member at the
/// group's position modulo its size, and the groups with that position
/// advanced by one. Nothing is chosen from a missing or empty group.
pub open spec fn pick(gs: Seq<GroupView>, k: (Seq<char>, Seq<char>)) -> (Option<SubscriptionId>, Seq<GroupView>) {
    if !has_group(gs, k) {
        (None, gs)
    } else {
        let i = group_pos(gs, k);
        let g = gs[i];
        if g.members.len() == 0 {
            (None, gs)
        } else {
            (
                Some(g.members[(g.index as int) % (g.members.len() as int)]),
                gs.update(i, GroupView { index: wrap_inc(g.index), ..g }),
            )
        }
    }
}

/// The groups after subscription `id` joined the group with key `k`: it
/// is appended to the group's members, and a missing group is created.
pub open spec fn join_group(gs: Seq<GroupView>, k: (Seq<char>, Seq<char>), id: SubscriptionId) -> Seq<GroupView> {
    if has_group(gs, k) {
        let i = group_pos(gs, k);
        gs.update(i, GroupView { members: gs[i].members.push(id), ..gs[i] })
    } else {
        gs.push(GroupView { key: k, members: seq![id], index: 0 })
    }
}

/// The groups after subscription `id` left the group with key `k`.
pub open spec fn leave_group(gs: Seq<GroupView>, k: (Seq<char>, Seq<char>), id: SubscriptionId) -> Seq<GroupView> {
    if has_group(gs, k) {
        let i = group_pos(gs, k);
        gs.update(i, GroupView { members: gs[i].members.filter(not_id(id)), ..gs[i] })
    } else {
        gs
    }
}

/// Subscription `m` is live and belongs to the queue group with key `k`.
pub open spec fn member_ok<D>(subs: Seq<Subscription<D>>, m: SubscriptionId, k: (Seq<char>, Seq<char>)) -> bool {
    exists|i: int| 0 <= i < subs.len() && #[trigger] subs[i].id == m && key_view(subs[i].queue_group_key) == Some(k)
}

/// Every member of every group is a live subscription of that group.
pub open spec fn members_live<D>(subs: Seq<Subscription<D>>, gs: Seq<GroupView>) -> bool {
    forall|i: int, j: int|
        0 <= i < gs.len() && 0 <= j < gs[i].members.len() ==> member_ok(subs, #[trigger] gs[i].members[j], gs[i].key)
}

// ---------------------------------------------------------------------------
// Delivery planning.
// ---------------------------------------------------------------------------

/// Where planning the matches stands: the queue groups already served,
/// the members chosen so far, the plain subscriptions to fan out to, and
/// the queue groups.
pub struct PlanState {
    pub seen: Seq<(Seq<char>, Seq<char>)>,
    pub picks: Seq<SubscriptionId>,
    pub fanout: Seq<SubscriptionId>,
    pub groups: Seq<GroupView>,
}

/// The queue group key of live subscription `id`.
pub open spec fn sub_key<D>(subs: Seq<Subscription<D>>, id: SubscriptionId) -> Option<(Seq<char>, Seq<char>)> {
    key_view(subs[find_id(subs, id)].queue_group_key)
}

/// One match: unknown ids are skipped; a queue-group subscription whose
/// group was not served yet has one member of that group chosen
/// round-robin, and later matches of the same group are skipped; any other
/// subscription is fanned out to.
pub open spec fn step<D>(subs: Seq<Subscription<D>>, st: PlanState, id: SubscriptionId) -> PlanState {
    if !has_id(subs, id) {
        st
    } else {
        match sub_key(subs, id) {
            Some(k) => if st.seen.contains(k) {
                st
            } else {
                let (c, gs) = pick(st.groups, k);
                PlanState {
                    seen: st.seen.push(k),
                    picks: match c {
                        Some(m) => st.picks.push(m),
                        None => st.picks,
                    },
                    groups: gs,
                    ..st
                }
            },
            None => PlanState { fanout: st.fanout.push(id), ..st },
        }
    }
}

/// The state after the matches `ids`, starting from the groups `gs`.
pub open spec fn plan_fold<D>(subs: Seq<Subscription<D>>, gs: Seq<GroupView>, ids: Seq<SubscriptionId>) -> PlanState
    decreases ids.len(),
{
    if ids.len() == 0 {
        PlanState { seen: Seq::empty(), picks: Seq::empty(), fanout: Seq::empty(), groups: gs }
    } else {
        step(subs, plan_fold(subs, gs, ids.drop_last()), ids.last())
    }
}

/// The delivery plan for the matches `ids`: each queue group among the
/// matches delivers to one member chosen round-robin, wherever its
/// members stand among the matches; every other matched subscription
/// receives the message.
pub open spec fn plan<D>(subs: Seq<Subscription<D>>, gs: Seq<GroupView>, ids: Seq<SubscriptionId>) -> PlanState {
    plan_fold(subs, gs, ids)
}

/// How many deliveries a plan makes.
pub open spec fn plan_count(st: PlanState) -> nat {
    st.picks.len() + st.fanout.len()
}

/// The queue group key a subscription to `pattern` in `queue_group` gets.
pub open spec fn key_for(pattern: Seq<char>, queue_group: Option<QueueGroupName>) -> Option<(Seq<char>, Seq<char>)> {
    match queue_group {
        Some(q) => Some((pattern, q@)),
        None => None,
    }
}

proof fn lemma_member_push<D>(subs: Seq<Subscription<D>>, x: Subscription<D>, m: SubscriptionId, k: (Seq<char>, Seq<char>))
    requires
        member_ok(subs, m, k),
    ensures
        member_ok(subs.push(x), m, k),
{
    let i = choose|i: int| 0 <= i < subs.len() && #[trigger] subs[i].id == m && key_view(subs[i].queue_group_key) == Some(k);
    assert(subs.push(x)[i] == subs[i]);
}

proof fn lemma_member_remove<D>(subs: Seq<Subscription<D>>, p: int, m: SubscriptionId, k: (Seq<char>, Seq<char>))
    requires
        0 <= p < subs.len(),
        member_ok(subs, m, k),
        m != subs[p].id,
    ensures
        member_ok(subs.remove(p), m, k),
{
    let i = choose|i: int| 0 <= i < subs.len() && #[trigger] subs[i].id == m && key_view(subs[i].queue_group_key) == Some(k);
    if i < p {
        assert(subs.remove(p)[i] == subs[i]);
    } else {
        assert(i != p);
        assert(subs.remove(p)[i - 1] == subs[i]);
    }
}

/// The text of an optional subject.
pub open spec fn opt_subject_view(s: Option<Subject>) -> Option<SubjectView> {
    match s {
        Some(x) => Some(x@),
        None => None,
    }
}

/// A copy of an optional subject.
fn clone_opt_subject(s: &Option<Subject>) -> (r: Option<Subject>)
    ensures
        opt_subject_view(r) == opt_subject_view(*s),
{
    match s {
        Some(x) => Some(x.clone()),
        None => None,
    }
}

/// Whether two queue group keys hold the same texts.
fn key_eq(a: &QueueGroupKey, b: &QueueGroupKey) -> (r: bool)
    ensures
        r == ((a.0@, a.1@) == (b.0@, b.1@)),
{
    str_eq(a.0.as_str(), b.0.as_str()) && str_eq(a.1.as_str(), b.1.as_str())
}

/// The texts of queue group keys.
pub open spec fn keys_view(v: Seq<QueueGroupKey>) -> Seq<(Seq<char>, Seq<char>)> {
    v.map_values(|k: QueueGroupKey| (k.0@, k.1@))
}

/// Whether `k` is among the keys `seen`, by text.
fn key_seen(seen: &Vec<QueueGroupKey>, k: &QueueGroupKey) -> (r: bool)
    ensures
        r == keys_view(seen@).contains((k.0@, k.1@)),
{
    let mut i: usize = 0;
    while i < seen.len()
        invariant
            i <= seen@.len(),
            forall|j: int| 0 <= j < i ==> keys_view(seen@)[j] != (k.0@, k.1@),
        decreases seen@.len() - i,
    {
        if key_eq(&seen[i], k) {
            assert(keys_view(seen@)[i as int] == (k.0@, k.1@));
            return true;
        }
        i = i + 1;
    }
    false
}

/// The message addressed to subscription `sub_id` on `connection_id`.
fn delivery_for(sub_id: SubscriptionId, connection_id: ConnectionId, message: &Message) -> (r: DeliveryMessage)
    ensures
        r.subscription_id == sub_id,
        r.connection_id == connection_id,
        r.subject@ == message.subject@,
        r.payload@ == message.payload@,
        opt_subject_view(r.reply_to) == opt_subject_view(message.reply_to),
        opt_headers_view(r.headers) == opt_headers_view(message.headers),
{
    DeliveryMessage {
        subscription_id: sub_id,
        connection_id,
        subject: message.subject.clone(),
        payload: message.payload.clone(),
        reply_to: clone_opt_subject(&message.reply_to),
        headers: clone_opt_headers(&message.headers),
    }
}

/// A message handed to a subscription's delivery handle: the subscription,
/// and the message's subject, payload, reply subject and headers.
pub struct Sent {
    pub sub: SubscriptionId,
    pub subject: SubjectView,
    pub payload: Seq<u8>,
    pub reply_to: Option<SubjectView>,
    pub headers: Option<Seq<(Seq<char>, Seq<char>)>>,
}

/// Message `m` handed to subscription `sub`.
pub open spec fn sent_of(sub: SubscriptionId, m: Message) -> Sent {
    Sent { sub, subject: m.subject@, payload: m.payload@, reply_to: opt_subject_view(m.reply_to), headers: opt_headers_view(m.headers) }
}

/// Batch item `it` handed to subscription `sub`.
pub open spec fn item_sent(sub: SubscriptionId, it: PublishItem) -> Sent {
    Sent { sub, subject: it.subject@, payload: it.payload@, reply_to: opt_subject_view(it.reply_to), headers: opt_headers_view(it.headers) }
}

/// What a delivery message hands over.
pub open spec fn delivery_sent(d: DeliveryMessage) -> Sent {
    Sent { sub: d.subscription_id, subject: d.subject@, payload: d.payload@, reply_to: opt_subject_view(d.reply_to), headers: opt_headers_view(d.headers) }
}

/// The messages a plan hands over: to the chosen queue-group members in
/// the order they were chosen, then to the fanned-out subscriptions in
/// match order.
pub open spec fn plan_sent(st: PlanState, m: Message) -> Seq<Sent> {
    st.picks.map_values(|id: SubscriptionId| sent_of(id, m)) + st.fanout.map_values(|id: SubscriptionId| sent_of(id, m))
}

/// As `plan_sent`, for a message given by its parts.
pub open spec fn plan_sent_parts(
    st: PlanState,
    subject: SubjectView,
    payload: Seq<u8>,
    reply_to: Option<SubjectView>,
    headers: Option<Seq<(Seq<char>, Seq<char>)>>,
) -> Seq<Sent> {
    let f = |id: SubscriptionId| Sent { sub: id, subject, payload, reply_to, headers };
    st.picks.map_values(f) + st.fanout.map_values(f)
}

/// The message of a batch item.
fn item_message(item: &PublishItem) -> (r: Message)
    ensures
        r.subject@ == item.subject@,
        r.payload@ == item.payload@,
        opt_subject_view(r.reply_to) == opt_subject_view(item.reply_to),
        opt_headers_view(r.headers) == opt_headers_view(item.headers),
{
    Message {
        id: MessageId::new(0),
        subject: item.subject.clone(),
        payload: item.payload.clone(),
        headers: clone_opt_headers(&item.headers),
        reply_to: clone_opt_subject(&item.reply_to),
        timestamp_ns: 0,
    }
}

/// The message of a batch item addressed to subscription `sub_id`.
fn item_delivery(sub_id: SubscriptionId, connection_id: ConnectionId, item: &PublishItem) -> (r: DeliveryMessage)
    ensures
        r.subscription_id == sub_id,
        r.connection_id == connection_id,
        r.subject@ == item.subject@,
        r.payload@ == item.payload@,
        opt_subject_view(r.reply_to) == opt_subject_view(item.reply_to),
        opt_headers_view(r.headers) == opt_headers_view(item.headers),
{
    DeliveryMessage {
        subscription_id: sub_id,
        connection_id,
        subject: item.subject.clone(),
        payload: item.payload.clone(),
        reply_to: clone_opt_subject(&item.reply_to),
        headers: clone_opt_headers(&item.headers),
    }
}

/// Whether every item has the first item's subject.
fn all_same_subject(items: &Vec<PublishItem>) -> (r: bool)
    requires
        items@.len() > 0,
    ensures
        r == forall|i: int| 0 <= i < items@.len() ==> #[trigger] items@[i].subject@ == items@[0].subject@,
{
    let mut i: usize = 1;
    while i < items.len()
        invariant
            1 <= i <= items@.len(),
            forall|j: int| 0 <= j < i ==> #[trigger] items@[j].subject@ == items@[0].subject@,
        decreases items@.len() - i,
    {
        if !items[i].subject.same_as(&items[0].subject) {
            return false;
        }
        i = i + 1;
    }
    true
}

/// What the delivery messages hand over, in order.
pub open spec fn msgs_sent(v: Seq<DeliveryMessage>) -> Seq<Sent> {
    v.map_values(|d: DeliveryMessage| delivery_sent(d))
}

/// What the queued messages hand over, queue by queue.
pub open spec fn pending_sent(p: Seq<(SubscriptionId, Vec<DeliveryMessage>)>) -> Seq<Sent>
    decreases p.len(),
{
    if p.len() == 0 {
        Seq::empty()
    } else {
        msgs_sent(p[0].1@) + pending_sent(p.drop_first())
    }
}

proof fn lemma_sent_push(p: Seq<(SubscriptionId, Vec<DeliveryMessage>)>, x: (SubscriptionId, Vec<DeliveryMessage>))
    ensures
        pending_sent(p.push(x)) == pending_sent(p) + msgs_sent(x.1@),
    decreases p.len(),
{
    if p.len() > 0 {
        lemma_sent_push(p.drop_first(), x);
        assert(p.push(x).drop_first() =~= p.drop_first().push(x));
        assert(p.push(x)[0] == p[0]);
        assert(pending_sent(p.push(x)) =~= msgs_sent(p[0].1@) + (pending_sent(p.drop_first()) + msgs_sent(x.1@)));
    } else {
        assert(p.push(x).drop_first() =~= Seq::<(SubscriptionId, Vec<DeliveryMessage>)>::empty());
        assert(p.push(x)[0] == x);
        assert(pending_sent(p.push(x).drop_first()) == Seq::<Sent>::empty());
        assert(pending_sent(p) == Seq::<Sent>::empty());
        assert(pending_sent(p.push(x)) =~= msgs_sent(x.1@));
    }
}

proof fn lemma_sent_update(p: Seq<(SubscriptionId, Vec<DeliveryMessage>)>, j: int, x: (SubscriptionId, Vec<DeliveryMessage>))
    requires
        0 <= j < p.len(),
    ensures
        pending_sent(p.update(j, x)).to_multiset().add(msgs_sent(p[j].1@).to_multiset())
            == pending_sent(p).to_multiset().add(msgs_sent(x.1@).to_multiset()),
    decreases p.len(),
{
    broadcast use vstd::seq_lib::lemma_multiset_commutative;
    broadcast use vstd::multiset::group_multiset_axioms;

    if j > 0 {
        lemma_sent_update(p.drop_first(), j - 1, x);
        assert(p.update(j, x).drop_first() =~= p.drop_first().update(j - 1, x));
        assert(p.update(j, x)[0] == p[0]);
        assert(p.drop_first()[j - 1] == p[j]);
        let a = msgs_sent(p[0].1@).to_multiset();
        let b = pending_sent(p.drop_first().update(j - 1, x)).to_multiset();
        let c = pending_sent(p.drop_first()).to_multiset();
        let y = msgs_sent(p[j].1@).to_multiset();
        let z = msgs_sent(x.1@).to_multiset();
        assert(pending_sent(p.update(j, x)).to_multiset() =~= a.add(b));
        assert(pending_sent(p).to_multiset() =~= a.add(c));
        assert(b.add(y) == c.add(z));
        assert forall|v: Sent| #[trigger] a.add(b).add(y).count(v) == a.add(c).add(z).count(v) by {
            assert(b.add(y).count(v) == c.add(z).count(v));
        }
        assert(a.add(b).add(y) =~= a.add(c).add(z));
    } else {
        assert(p.update(j, x).drop_first() =~= p.drop_first());
        assert(p.update(j, x)[0] == x);
        assert(pending_sent(p.update(j, x)) == msgs_sent(x.1@) + pending_sent(p.drop_first()));
        assert(pending_sent(p) == msgs_sent(p[0].1@) + pending_sent(p.drop_first()));
        let c = pending_sent(p.drop_first()).to_multiset();
        let y = msgs_sent(p[j].1@).to_multiset();
        let z = msgs_sent(x.1@).to_multiset();
        assert(z.add(c).add(y) =~= y.add(c).add(z));
    }
}

/// The messages one item hands over along its plan.
pub open spec fn item_plan_sent(st: PlanState, it: PublishItem) -> Seq<Sent> {
    st.picks.map_values(|id: SubscriptionId| item_sent(id, it)) + st.fanout.map_values(|id: SubscriptionId| item_sent(id, it))
}

/// The messages a batch hands over: each item along its own plan, taken
/// with the queue groups the items before it left.
pub open spec fn batch_sent<D>(subs: Seq<Subscription<D>>, e: RoutingEngine, gs: Seq<GroupView>, items: Seq<PublishItem>) -> Seq<Sent>
    decreases items.len(),
{
    if items.len() == 0 {
        Seq::empty()
    } else {
        let g = batch_fold(subs, e, (gs, 0), batch_subjects(items.drop_last())).0;
        batch_sent(subs, e, gs, items.drop_last()) + item_plan_sent(plan(subs, g, routed(&e, items.last().subject@)), items.last())
    }
}

/// Adding one element on the left part of a concatenation adds it to the
/// multiset.
proof fn lemma_ms_push_left(a: Seq<Sent>, b: Seq<Sent>, x: Sent)
    ensures
        (a.push(x) + b).to_multiset() == (a + b).to_multiset().insert(x),
{
    broadcast use vstd::seq_lib::lemma_multiset_commutative;
    broadcast use vstd::multiset::group_multiset_axioms;

    a.to_multiset_ensures();
    assert(a.push(x).to_multiset() =~= a.to_multiset().insert(x));
    assert((a.push(x) + b).to_multiset() =~= a.push(x).to_multiset().add(b.to_multiset()));
    assert((a + b).to_multiset() =~= a.to_multiset().add(b.to_multiset()));
    assert(a.to_multiset().insert(x).add(b.to_multiset()) =~= a.to_multiset().add(b.to_multiset()).insert(x));
}

/// The test "handed to subscription `s`".
pub open spec fn for_sub(s: SubscriptionId) -> spec_fn(Sent) -> bool {
    |x: Sent| x.sub == s
}

/// Every queued message is addressed to the subscription it is queued
/// for, and no subscription has two queues.
pub open spec fn queues_ok(p: Seq<(SubscriptionId, Vec<DeliveryMessage>)>) -> bool {
    &&& forall|k: int, t: int| 0 <= k < p.len() && 0 <= t < p[k].1@.len() ==> (#[trigger] p[k].1@[t]).subscription_id == p[k].0
    &&& forall|a: int, b: int| 0 <= a < p.len() && 0 <= b < p.len() && a != b ==> (#[trigger] p[a]).0 != (#[trigger] p[b]).0
}

proof fn lemma_filter_none_sent(a: Seq<Sent>, f: spec_fn(Sent) -> bool)
    requires
        forall|i: int| 0 <= i < a.len() ==> !f(#[trigger] a[i]),
    ensures
        a.filter(f) == Seq::<Sent>::empty(),
    decreases a.len(),
{
    reveal(Seq::filter);
    if a.len() > 0 {
        lemma_filter_none_sent(a.drop_last(), f);
        assert(!f(a[a.len() - 1]));
    }
}

proof fn lemma_filter_all_sent(a: Seq<Sent>, f: spec_fn(Sent) -> bool)
    requires
        forall|i: int| 0 <= i < a.len() ==> f(#[trigger] a[i]),
    ensures
        a.filter(f) == a,
    decreases a.len(),
{
    reveal(Seq::filter);
    if a.len() > 0 {
        lemma_filter_all_sent(a.drop_last(), f);
        assert(f(a[a.len() - 1]));
        assert(a.drop_last().push(a.last()) =~= a);
    }
}

/// The queued messages, split at queue `j`.
proof fn lemma_pending_split(p: Seq<(SubscriptionId, Vec<DeliveryMessage>)>, j: int)
    requires
        0 <= j < p.len(),
    ensures
        pending_sent(p) == pending_sent(p.take(j)) + msgs_sent(p[j].1@) + pending_sent(p.skip(j + 1)),
    decreases j,
{
    if j == 0 {
        assert(p.take(0) =~= Seq::<(SubscriptionId, Vec<DeliveryMessage>)>::empty());
        assert(p.skip(1) =~= p.drop_first());
        assert(pending_sent(p.take(0)) == Seq::<Sent>::empty());
        assert(pending_sent(p) =~= pending_sent(p.take(0)) + msgs_sent(p[0].1@) + pending_sent(p.skip(1)));
    } else {
        let d = p.drop_first();
        lemma_pending_split(d, j - 1);
        assert(d[j - 1] == p[j]);
        assert(d.skip(j) =~= p.skip(j + 1));
        assert(p.take(j).drop_first() =~= d.take(j - 1));
        assert(p.take(j)[0] == p[0]);
        assert(pending_sent(p.take(j)) == msgs_sent(p[0].1@) + pending_sent(d.take(j - 1)));
        assert(pending_sent(p) =~= pending_sent(p.take(j)) + msgs_sent(p[j].1@) + pending_sent(p.skip(j + 1)));
    }
}

/// The messages of a queue for subscription `id`, taken for subscription `s`:
/// all of them when `s` is `id`, none otherwise.
proof fn lemma_msgs_filter(v: Seq<DeliveryMessage>, id: SubscriptionId, s: SubscriptionId)
    requires
        forall|t: int| 0 <= t < v.len() ==> (#[trigger] v[t]).subscription_id == id,
    ensures
        msgs_sent(v).filter(for_sub(s)) == if s == id { msgs_sent(v) } else { Seq::<Sent>::empty() },
{
    let m = msgs_sent(v);
    if s == id {
        assert forall|i: int| 0 <= i < m.len() implies for_sub(s)(#[trigger] m[i]) by {
            assert(m[i] == delivery_sent(v[i]));
        }
        lemma_filter_all_sent(m, for_sub(s));
    } else {
        assert forall|i: int| 0 <= i < m.len() implies !for_sub(s)(#[trigger] m[i]) by {
            assert(m[i] == delivery_sent(v[i]));
        }
        lemma_filter_none_sent(m, for_sub(s));
    }
}

/// The queued messages for a subscription with no queue: none.
proof fn lemma_pending_filter_absent(p: Seq<(SubscriptionId, Vec<DeliveryMessage>)>, s: SubscriptionId)
    requires
        queues_ok(p),
        forall|k: int| 0 <= k < p.len() ==> (#[trigger] p[k]).0 != s,
    ensures
        pending_sent(p).filter(for_sub(s)) == Seq::<Sent>::empty(),
    decreases p.len(),
{
    if p.len() > 0 {
        let d = p.drop_first();
        assert forall|k: int, t: int| 0 <= k < d.len() && 0 <= t < d[k].1@.len() implies (#[trigger] d[k].1@[t]).subscription_id == d[k].0 by {
            assert(d[k] == p[k + 1]);
        }
        assert forall|a: int, b: int| 0 <= a < d.len() && 0 <= b < d.len() && a != b implies (#[trigger] d[a]).0 != (#[trigger] d[b]).0 by {
            assert(d[a] == p[a + 1] && d[b] == p[b + 1]);
        }
        assert forall|k: int| 0 <= k < d.len() implies (#[trigger] d[k]).0 != s by {
            assert(d[k] == p[k + 1]);
        }
        lemma_pending_filter_absent(d, s);
        assert forall|t: int| 0 <= t < p[0].1@.len() implies (#[trigger] p[0].1@[t]).subscription_id == p[0].0 by {}
        lemma_msgs_filter(p[0].1@, p[0].0, s);
        Seq::filter_distributes_over_add(msgs_sent(p[0].1@), pending_sent(d), for_sub(s));
    }
}

/// Adds a message to the queue of subscription `sub_id`, opening one when
/// the subscription has none yet.
fn push_pending(pending: &mut Vec<(SubscriptionId, Vec<DeliveryMessage>)>, sub_id: SubscriptionId, msg: DeliveryMessage)
    requires
        queues_ok(old(pending)@),
        msg.subscription_id == sub_id,
    ensures
        queues_ok(final(pending)@),
        forall|s: SubscriptionId| #[trigger] pending_sent(final(pending)@).filter(for_sub(s)) == if s == sub_id {
            pending_sent(old(pending)@).filter(for_sub(s)).push(delivery_sent(msg))
        } else {
            pending_sent(old(pending)@).filter(for_sub(s))
        },
        pending_total(final(pending)@) == pending_total(old(pending)@) + 1,
        pending_sent(final(pending)@).to_multiset() == pending_sent(old(pending)@).to_multiset().insert(delivery_sent(msg)),
        forall|k: int| 0 <= k < final(pending)@.len() ==> (#[trigger] final(pending)@[k]).0 == sub_id
            || exists|k2: int| 0 <= k2 < old(pending)@.len() && old(pending)@[k2].0 == final(pending)@[k].0,
{
    let mut j: usize = 0;
    while j < pending.len()
        invariant
            j <= pending@.len(),
            pending@ == old(pending)@,
            queues_ok(old(pending)@),
            msg.subscription_id == sub_id,
            forall|k: int| 0 <= k < j ==> (#[trigger] pending@[k]).0 != sub_id,
        decreases pending@.len() - j,
    {
        if pending[j].0 == sub_id {
            let ghost before = pending@;
            let ghost m = msg;
            pending[j].1.push(msg);
            proof {
                assert(pending@ =~= before.update(j as int, pending@[j as int]));
                lemma_pending_update(before, j as int, pending@[j as int]);
                lemma_sent_update(before, j as int, pending@[j as int]);
                assert(pending@[j as int].1@ =~= before[j as int].1@.push(m));
                assert(msgs_sent(pending@[j as int].1@) =~= msgs_sent(before[j as int].1@).push(delivery_sent(m)));
                broadcast use vstd::multiset::group_multiset_axioms;
                msgs_sent(before[j as int].1@).to_multiset_ensures();
                let y = msgs_sent(before[j as int].1@).to_multiset();
                assert(msgs_sent(pending@[j as int].1@).to_multiset() =~= y.insert(delivery_sent(m)));
                let q0 = pending_sent(before).to_multiset();
                let q1 = pending_sent(pending@).to_multiset();
                assert(q1.add(y) == q0.add(y.insert(delivery_sent(m))));
                assert forall|v: Sent| #[trigger] q1.count(v) == q0.insert(delivery_sent(m)).count(v) by {
                    assert(q1.add(y).count(v) == q0.add(y.insert(delivery_sent(m))).count(v));
                }
                assert(q1 =~= q0.insert(delivery_sent(m)));
                assert forall|k: int| 0 <= k < pending@.len() implies (#[trigger] pending@[k]).0 == sub_id
                    || exists|k2: int| 0 <= k2 < before.len() && before[k2].0 == pending@[k].0 by {
                    assert(before[k].0 == pending@[k].0);
                }
                lemma_queue_added(before, pending@, j as int, m);
            }
            return;
        }
        j = j + 1;
    }
    let ghost before = pending@;
    let ghost m = msg;
    let mut v: Vec<DeliveryMessage> = Vec::new();
    v.push(msg);
    pending.push((sub_id, v));
    proof {
        lemma_pending_push(before, pending@.last());
        lemma_sent_push(before, pending@.last());
        assert(pending@ =~= before.push(pending@.last()));
        assert(msgs_sent(pending@.last().1@) =~= Seq::<Sent>::empty().push(delivery_sent(m)));
        lemma_ms_push_left(pending_sent(before), Seq::<Sent>::empty(), delivery_sent(m));
        assert(pending_sent(before) + Seq::<Sent>::empty() =~= pending_sent(before));
        assert(pending_sent(before).push(delivery_sent(m)) + Seq::<Sent>::empty() =~= pending_sent(pending@));
        assert forall|k: int| 0 <= k < pending@.len() implies (#[trigger] pending@[k]).0 == sub_id
            || exists|k2: int| 0 <= k2 < before.len() && before[k2].0 == pending@[k].0 by {
            if k < before.len() {
                assert(before[k].0 == pending@[k].0);
            }
        }
        assert forall|k: int| 0 <= k < before.len() implies (#[trigger] before[k]).0 != pending@.last().0 by {}
        lemma_queue_opened(before, pending@.last(), m);
    }
}

/// A message added to the queue at `j`, whose subscription it is
/// addressed to: the queues stay sound, and the message goes after the
/// others for that subscription.
proof fn lemma_queue_added(p: Seq<(SubscriptionId, Vec<DeliveryMessage>)>, q: Seq<(SubscriptionId, Vec<DeliveryMessage>)>, j: int, m: DeliveryMessage)
    requires
        queues_ok(p),
        0 <= j < p.len(),
        q.len() == p.len(),
        forall|k: int| 0 <= k < p.len() && k != j ==> #[trigger] q[k] == p[k],
        q[j].0 == p[j].0,
        q[j].1@ == p[j].1@.push(m),
        m.subscription_id == p[j].0,
    ensures
        queues_ok(q),
        forall|s: SubscriptionId| #[trigger] pending_sent(q).filter(for_sub(s)) == if s == p[j].0 {
            pending_sent(p).filter(for_sub(s)).push(delivery_sent(m))
        } else {
            pending_sent(p).filter(for_sub(s))
        },
{
    let id = p[j].0;
    assert forall|k: int, t: int| 0 <= k < q.len() && 0 <= t < q[k].1@.len() implies (#[trigger] q[k].1@[t]).subscription_id == q[k].0 by {
        if k != j {
            assert(q[k] == p[k]);
        } else if t < p[j].1@.len() {
            assert(q[j].1@[t] == p[j].1@[t]);
        }
    }
    assert forall|a: int, b: int| 0 <= a < q.len() && 0 <= b < q.len() && a != b implies (#[trigger] q[a]).0 != (#[trigger] q[b]).0 by {
        assert(q[a].0 == p[a].0 && q[b].0 == p[b].0) by {
            if a != j { assert(q[a] == p[a]); }
            if b != j { assert(q[b] == p[b]); }
        }
    }
    lemma_pending_split(p, j);
    lemma_pending_split(q, j);
    assert(q.take(j) =~= p.take(j)) by {
        assert forall|k: int| 0 <= k < j implies #[trigger] q.take(j)[k] == p.take(j)[k] by { assert(q[k] == p[k]); }
    }
    assert(q.skip(j + 1) =~= p.skip(j + 1)) by {
        assert forall|k: int| 0 <= k < p.len() - j - 1 implies #[trigger] q.skip(j + 1)[k] == p.skip(j + 1)[k] by { assert(q[j + 1 + k] == p[j + 1 + k]); }
    }
    let a = pending_sent(p.take(j));
    let b = pending_sent(p.skip(j + 1));
    let mp = msgs_sent(p[j].1@);
    let mq = msgs_sent(q[j].1@);
    assert(mq =~= mp.push(delivery_sent(m)));
    let pa = p.take(j);
    let pb = p.skip(j + 1);
    assert forall|k: int, t: int| 0 <= k < pa.len() && 0 <= t < pa[k].1@.len() implies (#[trigger] pa[k].1@[t]).subscription_id == pa[k].0 by {
        assert(pa[k] == p[k]);
    }
    assert forall|x: int, y: int| 0 <= x < pa.len() && 0 <= y < pa.len() && x != y implies (#[trigger] pa[x]).0 != (#[trigger] pa[y]).0 by {
        assert(pa[x] == p[x] && pa[y] == p[y]);
    }
    assert forall|k: int, t: int| 0 <= k < pb.len() && 0 <= t < pb[k].1@.len() implies (#[trigger] pb[k].1@[t]).subscription_id == pb[k].0 by {
        assert(pb[k] == p[j + 1 + k]);
    }
    assert forall|x: int, y: int| 0 <= x < pb.len() && 0 <= y < pb.len() && x != y implies (#[trigger] pb[x]).0 != (#[trigger] pb[y]).0 by {
        assert(pb[x] == p[j + 1 + x] && pb[y] == p[j + 1 + y]);
    }
    assert forall|s: SubscriptionId| #[trigger] pending_sent(q).filter(for_sub(s)) == if s == id {
        pending_sent(p).filter(for_sub(s)).push(delivery_sent(m))
    } else {
        pending_sent(p).filter(for_sub(s))
    } by {
        let f = for_sub(s);
        Seq::filter_distributes_over_add(a + mp, b, f);
        Seq::filter_distributes_over_add(a, mp, f);
        Seq::filter_distributes_over_add(a + mq, b, f);
        Seq::filter_distributes_over_add(a, mq, f);
        assert forall|t: int| 0 <= t < p[j].1@.len() implies (#[trigger] p[j].1@[t]).subscription_id == id by {}
        assert forall|t: int| 0 <= t < q[j].1@.len() implies (#[trigger] q[j].1@[t]).subscription_id == id by {
            if t < p[j].1@.len() { assert(q[j].1@[t] == p[j].1@[t]); }
        }
        lemma_msgs_filter(p[j].1@, id, s);
        lemma_msgs_filter(q[j].1@, id, s);
        if s == id {
            assert forall|k: int| 0 <= k < pa.len() implies (#[trigger] pa[k]).0 != s by {
                assert(pa[k] == p[k]);
            }
            assert forall|k: int| 0 <= k < pb.len() implies (#[trigger] pb[k]).0 != s by {
                assert(pb[k] == p[j + 1 + k]);
            }
            lemma_pending_filter_absent(pa, s);
            lemma_pending_filter_absent(pb, s);
            assert(pending_sent(q).filter(f) =~= mq);
            assert(pending_sent(p).filter(f) =~= mp);
        } else {
            assert(pending_sent(q).filter(f) =~= a.filter(f) + b.filter(f));
            assert(pending_sent(p).filter(f) =~= a.filter(f) + b.filter(f));
        }
    }
}

/// A queue opened at the end, for a subscription that had none, with one
/// message addressed to it.
proof fn lemma_queue_opened(p: Seq<(SubscriptionId, Vec<DeliveryMessage>)>, x: (SubscriptionId, Vec<DeliveryMessage>), m: DeliveryMessage)
    requires
        queues_ok(p),
        forall|k: int| 0 <= k < p.len() ==> (#[trigger] p[k]).0 != x.0,
        x.1@ == seq![m],
        m.subscription_id == x.0,
    ensures
        queues_ok(p.push(x)),
        forall|s: SubscriptionId| #[trigger] pending_sent(p.push(x)).filter(for_sub(s)) == if s == x.0 {
            pending_sent(p).filter(for_sub(s)).push(delivery_sent(m))
        } else {
            pending_sent(p).filter(for_sub(s))
        },
{
    let q = p.push(x);
    assert forall|k: int, t: int| 0 <= k < q.len() && 0 <= t < q[k].1@.len() implies (#[trigger] q[k].1@[t]).subscription_id == q[k].0 by {
        if k < p.len() { assert(q[k] == p[k]); }
    }
    assert forall|a: int, b: int| 0 <= a < q.len() && 0 <= b < q.len() && a != b implies (#[trigger] q[a]).0 != (#[trigger] q[b]).0 by {
        if a < p.len() { assert(q[a] == p[a]); }
        if b < p.len() { assert(q[b] == p[b]); }
    }
    lemma_sent_push(p, x);
    assert(msgs_sent(x.1@) =~= seq![delivery_sent(m)]);
    assert forall|s: SubscriptionId| #[trigger] pending_sent(q).filter(for_sub(s)) == if s == x.0 {
        pending_sent(p).filter(for_sub(s)).push(delivery_sent(m))
    } else {
        pending_sent(p).filter(for_sub(s))
    } by {
        assert(pending_sent(q) =~= pending_sent(p).push(delivery_sent(m)));
        pending_sent(p).lemma_filter_push(delivery_sent(m), for_sub(s));
    }
}

/// The outcomes of a batch of `total` messages of which the handle
/// accepted `accepted`: that many delivered, then the rest dropped.
pub open spec fn accepted_outcomes(accepted: nat, total: nat) -> Seq<bool> {
    Seq::new(total, |i: int| i < accepted)
}

proof fn lemma_accepted_outcomes(accepted: nat, total: nat)
    requires
        accepted <= total,
    ensures
        trues(accepted_outcomes(accepted, total)) == accepted,
    decreases total,
{
    let o = accepted_outcomes(accepted, total);
    if total > 0 {
        if accepted == total {
            lemma_accepted_outcomes((accepted - 1) as nat, (total - 1) as nat);
            assert(o.drop_last() =~= accepted_outcomes((accepted - 1) as nat, (total - 1) as nat));
        } else {
            lemma_accepted_outcomes(accepted, (total - 1) as nat);
            assert(o.drop_last() =~= accepted_outcomes(accepted, (total - 1) as nat));
        }
    }
}

/// One hand-over to a subscription's delivery handle: a single message
/// given to `deliver`, with the status it returned, or a batch given to
/// `deliver_batch`, with the count it returned.
pub enum HandOver<D> {
    One { handle: Arc<D>, sub: SubscriptionId, msg: DeliveryMessage, status: DeliveryStatus },
    Batch { handle: Arc<D>, sub: SubscriptionId, msgs: Vec<DeliveryMessage>, accepted: usize },
}

/// The handle a hand-over went to.
pub open spec fn handover_handle<D>(h: HandOver<D>) -> Arc<D> {
    match h {
        HandOver::One { handle, .. } => handle,
        HandOver::Batch { handle, .. } => handle,
    }
}

/// The subscription a hand-over was for.
pub open spec fn handover_sub<D>(h: HandOver<D>) -> SubscriptionId {
    match h {
        HandOver::One { sub, .. } => sub,
        HandOver::Batch { sub, .. } => sub,
    }
}

/// The messages given to the handle, in order.
pub open spec fn handover_msgs<D>(h: HandOver<D>) -> Seq<DeliveryMessage> {
    match h {
        HandOver::One { msg, .. } => seq![msg],
        HandOver::Batch { msgs, .. } => msgs@,
    }
}

/// The outcome the broker owes each message of a hand-over: for a single
/// message, whether the status was `Delivered`; for a batch, the first
/// `accepted` delivered (at most all of them), the rest dropped.
pub open spec fn handover_outcomes<D>(h: HandOver<D>) -> Seq<bool> {
    match h {
        HandOver::One { status, .. } => seq![status is Delivered],
        HandOver::Batch { msgs, accepted, .. } => accepted_outcomes(
            if (accepted as nat) < msgs@.len() { accepted as nat } else { msgs@.len() },
            msgs@.len(),
        ),
    }
}

/// The result recorded is one the handle's method can return for exactly
/// the messages recorded.
pub open spec fn handed<D: DeliveryHandle>(h: HandOver<D>) -> bool {
    match h {
        HandOver::One { handle, msg, status, .. } => call_ensures(D::deliver, (&*handle, msg), status),
        HandOver::Batch { handle, msgs, accepted, .. } => call_ensures(D::deliver_batch, (&*handle, msgs), accepted),
    }
}

/// The hand-over went to the live subscription's own handle, and every
/// message in it is addressed to that subscription.
pub open spec fn addressed<D>(subs: Seq<Subscription<D>>, h: HandOver<D>) -> bool {
    &&& has_id(subs, handover_sub(h))
    &&& handover_handle(h) == subs[find_id(subs, handover_sub(h))].delivery
    &&& forall|i: int| 0 <= i < handover_msgs(h).len() ==> (#[trigger] handover_msgs(h)[i]).subscription_id == handover_sub(h)
}

/// Every hand-over of `hs` is handed and addressed.
pub open spec fn faithful<D: DeliveryHandle>(subs: Seq<Subscription<D>>, hs: Seq<HandOver<D>>) -> bool {
    forall|i: int| 0 <= i < hs.len() ==> handed(#[trigger] hs[i]) && addressed(subs, hs[i])
}

/// The messages of the hand-overs, in order.
pub open spec fn handovers_sent<D>(hs: Seq<HandOver<D>>) -> Seq<Sent>
    decreases hs.len(),
{
    if hs.len() == 0 {
        Seq::empty()
    } else {
        handovers_sent(hs.drop_last()) + msgs_sent(handover_msgs(hs.last()))
    }
}

/// The outcomes owed for the hand-overs, in order.
pub open spec fn handovers_outcomes<D>(hs: Seq<HandOver<D>>) -> Seq<bool>
    decreases hs.len(),
{
    if hs.len() == 0 {
        Seq::empty()
    } else {
        handovers_outcomes(hs.drop_last()) + handover_outcomes(hs.last())
    }
}

/// From hand-over log `h0` to `h1`, sent log `s0` to `s1` and outcome log
/// `o0` to `o1`: the hand-over log grew by hand-overs to the handles of
/// `subs`, each with a result its handle can give; the messages logged as
/// sent are exactly the messages handed over, and the outcomes logged are
/// exactly those the handles' results call for.
pub open spec fn handed_since<D: DeliveryHandle>(
    subs: Seq<Subscription<D>>,
    h0: Seq<HandOver<D>>,
    h1: Seq<HandOver<D>>,
    s0: Seq<Sent>,
    s1: Seq<Sent>,
    o0: Seq<bool>,
    o1: Seq<bool>,
) -> bool {
    &&& h0.len() <= h1.len()
    &&& h1.take(h0.len() as int) == h0
    &&& faithful(subs, h1.skip(h0.len() as int))
    &&& s1 == s0 + handovers_sent(h1.skip(h0.len() as int))
    &&& o1 == o0 + handovers_outcomes(h1.skip(h0.len() as int))
}

proof fn lemma_handovers_concat<D>(a: Seq<HandOver<D>>, b: Seq<HandOver<D>>)
    ensures
        handovers_sent(a + b) == handovers_sent(a) + handovers_sent(b),
        handovers_outcomes(a + b) == handovers_outcomes(a) + handovers_outcomes(b),
    decreases b.len(),
{
    if b.len() == 0 {
        assert(a + b =~= a);
        assert(handovers_sent(a) + handovers_sent(b) =~= handovers_sent(a));
        assert(handovers_outcomes(a) + handovers_outcomes(b) =~= handovers_outcomes(a));
    } else {
        lemma_handovers_concat(a, b.drop_last());
        assert((a + b).drop_last() =~= a + b.drop_last());
        assert((a + b).last() == b.last());
        assert(handovers_sent(a + b) =~= handovers_sent(a) + handovers_sent(b));
        assert(handovers_outcomes(a + b) =~= handovers_outcomes(a) + handovers_outcomes(b));
    }
}

proof fn lemma_handovers_len<D>(hs: Seq<HandOver<D>>)
    ensures
        handovers_outcomes(hs).len() == handovers_sent(hs).len(),
    decreases hs.len(),
{
    if hs.len() > 0 {
        lemma_handovers_len(hs.drop_last());
        match hs.last() {
            HandOver::One { .. } => {},
            HandOver::Batch { .. } => {},
        }
    }
}

proof fn lemma_handovers_single<D>(x: HandOver<D>)
    ensures
        handovers_sent(seq![x]) == msgs_sent(handover_msgs(x)),
        handovers_outcomes(seq![x]) == handover_outcomes(x),
{
    assert(seq![x].drop_last() =~= Seq::<HandOver<D>>::empty());
    assert(seq![x].last() == x);
    assert(handovers_sent(seq![x].drop_last()) == Seq::<Sent>::empty());
    assert(handovers_outcomes(seq![x].drop_last()) == Seq::<bool>::empty());
    assert(handovers_sent(seq![x]) =~= msgs_sent(handover_msgs(x)));
    assert(handovers_outcomes(seq![x]) =~= handover_outcomes(x));
}

/// Hand-over law: across a stretch of publishing, each hand-over went to
/// the live subscription's own handle with messages addressed to that
/// subscription and came back with a result that handle's method can give
/// for exactly those messages; the sent log and the outcome log grew in
/// step; and the part of each log that belongs to a hand-over holds
/// exactly its messages and the outcomes its result calls for. So a
/// single message is counted delivered exactly when `deliver` returned
/// `Delivered`, and of a batch the first `accepted` messages (at most all
/// of them) are counted delivered and the rest dropped.
pub proof fn lemma_handover_law<D: DeliveryHandle>(
    subs: Seq<Subscription<D>>,
    h0: Seq<HandOver<D>>,
    h1: Seq<HandOver<D>>,
    s0: Seq<Sent>,
    s1: Seq<Sent>,
    o0: Seq<bool>,
    o1: Seq<bool>,
)
    requires
        handed_since(subs, h0, h1, s0, s1, o0, o1),
    ensures
        s1.len() - s0.len() == o1.len() - o0.len(),
        forall|i: int|
            h0.len() <= i < h1.len() ==> {
                let off = handovers_sent(h1.subrange(h0.len() as int, i)).len() as int;
                let n = handover_msgs(#[trigger] h1[i]).len() as int;
                &&& handed(h1[i])
                &&& addressed(subs, h1[i])
                &&& s1.subrange(s0.len() + off, s0.len() + off + n) == msgs_sent(handover_msgs(h1[i]))
                &&& o1.subrange(o0.len() + off, o0.len() + off + n) == handover_outcomes(h1[i])
            },
{
    let new = h1.skip(h0.len() as int);
    lemma_handovers_len(new);
    assert forall|i: int|
        h0.len() <= i < h1.len() implies {
            let off = handovers_sent(h1.subrange(h0.len() as int, i)).len() as int;
            let n = handover_msgs(#[trigger] h1[i]).len() as int;
            &&& handed(h1[i])
            &&& addressed(subs, h1[i])
            &&& s1.subrange(s0.len() + off, s0.len() + off + n) == msgs_sent(handover_msgs(h1[i]))
            &&& o1.subrange(o0.len() + off, o0.len() + off + n) == handover_outcomes(h1[i])
        } by {
        let j = i - h0.len();
        let x = new[j];
        assert(x == h1[i]);
        let a = new.take(j);
        let c = new.skip(j + 1);
        assert(h1.subrange(h0.len() as int, i) =~= a);
        assert(new =~= a + (seq![x] + c));
        lemma_handovers_concat(seq![x], c);
        lemma_handovers_concat(a, seq![x] + c);
        lemma_handovers_single(x);
        lemma_handovers_len(a);
        let sa = handovers_sent(a);
        let sx = msgs_sent(handover_msgs(x));
        let sc = handovers_sent(c);
        let oa = handovers_outcomes(a);
        let ox = handover_outcomes(x);
        let oc = handovers_outcomes(c);
        match x {
            HandOver::One { .. } => {},
            HandOver::Batch { .. } => {},
        }
        assert(sx.len() == handover_msgs(x).len());
        assert(ox.len() == handover_msgs(x).len());
        assert(s1 =~= s0 + sa + sx + sc);
        assert(o1 =~= o0 + oa + ox + oc);
        assert(s1.subrange(s0.len() + sa.len() as int, s0.len() + sa.len() + sx.len() as int) =~= sx);
        assert(o1.subrange(o0.len() + oa.len() as int, o0.len() + oa.len() + ox.len() as int) =~= ox);
    }
}

/// Nothing handed over, nothing logged.
proof fn lemma_handed_none<D: DeliveryHandle>(subs: Seq<Subscription<D>>, h: Seq<HandOver<D>>, s: Seq<Sent>, o: Seq<bool>)
    ensures
        handed_since(subs, h, h, s, s, o, o),
{
    assert(h.take(h.len() as int) =~= h);
    assert(h.skip(h.len() as int) =~= Seq::<HandOver<D>>::empty());
    assert(s + Seq::<Sent>::empty() =~= s);
    assert(o + Seq::<bool>::empty() =~= o);
}

/// One more hand-over, logged with its messages and owed outcomes.
proof fn lemma_handed_push<D: DeliveryHandle>(
    subs: Seq<Subscription<D>>,
    h0: Seq<HandOver<D>>,
    h1: Seq<HandOver<D>>,
    s0: Seq<Sent>,
    s1: Seq<Sent>,
    o0: Seq<bool>,
    o1: Seq<bool>,
    x: HandOver<D>,
)
    requires
        handed_since(subs, h0, h1, s0, s1, o0, o1),
        handed(x),
        addressed(subs, x),
    ensures
        handed_since(subs, h0, h1.push(x), s0, s1 + msgs_sent(handover_msgs(x)), o0, o1 + handover_outcomes(x)),
{
    let n = h1.skip(h0.len() as int);
    let m = h1.push(x).skip(h0.len() as int);
    assert(m =~= n.push(x));
    assert(m.drop_last() =~= n);
    assert(h1.push(x).take(h0.len() as int) =~= h0);
    assert(s0 + handovers_sent(m) =~= s1 + msgs_sent(handover_msgs(x)));
    assert(o0 + handovers_outcomes(m) =~= o1 + handover_outcomes(x));
    assert forall|i: int| 0 <= i < m.len() implies handed(#[trigger] m[i]) && addressed(subs, m[i]) by {
        if i < n.len() {
            assert(m[i] == n[i]);
        }
    }
}

/// Two stretches of hand-overs make one.
proof fn lemma_handed_compose<D: DeliveryHandle>(
    subs: Seq<Subscription<D>>,
    h0: Seq<HandOver<D>>,
    h1: Seq<HandOver<D>>,
    h2: Seq<HandOver<D>>,
    s0: Seq<Sent>,
    s1: Seq<Sent>,
    s2: Seq<Sent>,
    o0: Seq<bool>,
    o1: Seq<bool>,
    o2: Seq<bool>,
)
    requires
        handed_since(subs, h0, h1, s0, s1, o0, o1),
        handed_since(subs, h1, h2, s1, s2, o1, o2),
    ensures
        handed_since(subs, h0, h2, s0, s2, o0, o2),
{
    let a = h1.skip(h0.len() as int);
    let b = h2.skip(h1.len() as int);
    assert(h2.take(h0.len() as int) =~= h0) by {
        assert forall|i: int| 0 <= i < h0.len() implies h2.take(h0.len() as int)[i] == h0[i] by {
            assert(h2.take(h1.len() as int)[i] == h1[i]);
            assert(h1.take(h0.len() as int)[i] == h0[i]);
        }
    }
    assert(h2.skip(h0.len() as int) =~= a + b) by {
        assert forall|i: int| 0 <= i < h2.len() - h0.len() implies h2.skip(h0.len() as int)[i] == (a + b)[i] by {
            if i < a.len() {
                assert(h2.take(h1.len() as int)[h0.len() + i] == h1[h0.len() + i]);
            } else {
                assert(b[i - a.len()] == h2[h1.len() + (i - a.len())]);
            }
        }
    }
    lemma_handovers_concat(a, b);
    assert(s2 =~= s0 + handovers_sent(a + b));
    assert(o2 =~= o0 + handovers_outcomes(a + b));
    assert forall|i: int| 0 <= i < (a + b).len() implies handed(#[trigger] (a + b)[i]) && addressed(subs, (a + b)[i]) by {
        if i < a.len() {
            assert((a + b)[i] == a[i]);
        } else {
            assert((a + b)[i] == b[i - a.len()]);
        }
    }
}

/// The counters with `n` more messages published.
pub open spec fn with_published(m: CoreMetrics, n: u64) -> CoreMetrics {
    CoreMetrics { messages_published: wrap_add(m.messages_published, n), ..m }
}

/// The subscriptions that a publish by subject text reaches: none when no
/// exact subscription is held under the text and no wildcard one may exist,
/// none when the text is not a valid subject, and otherwise the exact
/// subscriptions under the text followed, when wildcard subscriptions may
/// exist, by the matching wildcard ones.
pub open spec fn routed_str(e: RoutingEngine, text: Seq<char>) -> Seq<SubscriptionId> {
    let ex = exact_ids(e.exact_map(), text);
    if ex.len() == 0 && !e.wildcard_flag() {
        Seq::empty()
    } else if !valid_subject(trim(text)) {
        Seq::empty()
    } else if e.wildcard_flag() {
        ex + ids_of(matching(e.trie_entries(), parsed_subject(text).tokens))
    } else {
        ex
    }
}
/// The items of a batch, by subject, in order: the queue groups after it
/// and the number of deliveries it makes, each item delivered along its own
/// plan.
pub open spec fn batch_fold<D>(subs: Seq<Subscription<D>>, e: RoutingEngine, acc: (Seq<GroupView>, nat), subjects: Seq<SubjectView>) -> (Seq<GroupView>, nat)
    decreases subjects.len(),
{
    if subjects.len() == 0 {
        acc
    } else {
        let a = batch_fold(subs, e, acc, subjects.drop_last());
        let p = plan(subs, a.0, routed(&e, subjects.last()));
        (p.groups, a.1 + plan_count(p))
    }
}

/// The subjects of a batch.
pub open spec fn batch_subjects(items: Seq<PublishItem>) -> Seq<SubjectView> {
    items.map_values(|it: PublishItem| it.subject@)
}

/// The messages waiting per subscription.
pub open spec fn pending_total(p: Seq<(SubscriptionId, Vec<DeliveryMessage>)>) -> nat
    decreases p.len(),
{
    if p.len() == 0 {
        0
    } else {
        p[0].1@.len() + pending_total(p.drop_first())
    }
}

proof fn lemma_pending_push(p: Seq<(SubscriptionId, Vec<DeliveryMessage>)>, x: (SubscriptionId, Vec<DeliveryMessage>))
    ensures
        pending_total(p.push(x)) == pending_total(p) + x.1@.len(),
    decreases p.len(),
{
    if p.len() > 0 {
        lemma_pending_push(p.drop_first(), x);
        assert(p.push(x).drop_first() =~= p.drop_first().push(x));
        assert(p.push(x)[0] == p[0]);
    } else {
        assert(p.push(x).drop_first() =~= Seq::<(SubscriptionId, Vec<DeliveryMessage>)>::empty());
        assert(p.push(x)[0] == x);
        assert(pending_total(p.push(x).drop_first()) == 0);
    }
}

proof fn lemma_pending_update(p: Seq<(SubscriptionId, Vec<DeliveryMessage>)>, j: int, x: (SubscriptionId, Vec<DeliveryMessage>))
    requires
        0 <= j < p.len(),
    ensures
        pending_total(p.update(j, x)) + p[j].1@.len() == pending_total(p) + x.1@.len(),
    decreases p.len(),
{
    if j > 0 {
        lemma_pending_update(p.drop_first(), j - 1, x);
        assert(p.update(j, x).drop_first() =~= p.drop_first().update(j - 1, x));
        assert(p.update(j, x)[0] == p[0]);
    } else {
        assert(p.update(j, x).drop_first() =~= p.drop_first());
    }
}

/// A queue-group pick logged at once keeps each subscription's messages
/// in plan order, the picked member having no queued messages and not
/// being fanned out to.
proof fn lemma_step_pick_filters(
    added: Seq<Sent>,
    p: Seq<Sent>,
    b: Seq<Sent>,
    picks: Seq<Sent>,
    fan: Seq<Sent>,
    x: Sent,
)
    requires
        forall|s: SubscriptionId| #[trigger] (added + p).filter(for_sub(s)) == (b + picks + fan).filter(for_sub(s)),
        p.filter(for_sub(x.sub)) == Seq::<Sent>::empty(),
        fan.filter(for_sub(x.sub)) == Seq::<Sent>::empty(),
    ensures
        forall|s: SubscriptionId| #[trigger] (added.push(x) + p).filter(for_sub(s)) == (b + picks.push(x) + fan).filter(for_sub(s)),
{
    assert forall|s: SubscriptionId| #[trigger] (added.push(x) + p).filter(for_sub(s)) == (b + picks.push(x) + fan).filter(for_sub(s)) by {
        let f = for_sub(s);
        Seq::filter_distributes_over_add(added.push(x), p, f);
        Seq::filter_distributes_over_add(added, p, f);
        Seq::filter_distributes_over_add(b + picks.push(x), fan, f);
        Seq::filter_distributes_over_add(b, picks.push(x), f);
        Seq::filter_distributes_over_add(b + picks, fan, f);
        Seq::filter_distributes_over_add(b, picks, f);
        added.lemma_filter_push(x, f);
        picks.lemma_filter_push(x, f);
        if s == x.sub {
            assert(added.filter(f) + p.filter(f) == b.filter(f) + picks.filter(f) + fan.filter(f));
            assert(added.filter(f) =~= b.filter(f) + picks.filter(f));
            assert((added.push(x) + p).filter(f) =~= (b + picks.push(x) + fan).filter(f));
        } else {
            assert((added.push(x) + p).filter(f) =~= (added + p).filter(f));
            assert((b + picks.push(x) + fan).filter(f) =~= (b + picks + fan).filter(f));
        }
    }
}

/// A message queued for its subscription keeps each subscription's
/// messages in plan order.
proof fn lemma_step_fan_filters(added: Seq<Sent>, p: Seq<Sent>, p2: Seq<Sent>, r: Seq<Sent>, x: Sent)
    requires
        forall|s: SubscriptionId| #[trigger] (added + p).filter(for_sub(s)) == r.filter(for_sub(s)),
        forall|s: SubscriptionId| #[trigger] p2.filter(for_sub(s)) == if s == x.sub {
            p.filter(for_sub(s)).push(x)
        } else {
            p.filter(for_sub(s))
        },
    ensures
        forall|s: SubscriptionId| #[trigger] (added + p2).filter(for_sub(s)) == r.push(x).filter(for_sub(s)),
{
    assert forall|s: SubscriptionId| #[trigger] (added + p2).filter(for_sub(s)) == r.push(x).filter(for_sub(s)) by {
        let f = for_sub(s);
        Seq::filter_distributes_over_add(added, p2, f);
        Seq::filter_distributes_over_add(added, p, f);
        r.lemma_filter_push(x, f);
        assert(p2.filter(f) == if s == x.sub { p.filter(f).push(x) } else { p.filter(f) });
        assert((added + p).filter(f) == r.filter(f));
        if s == x.sub {
            assert(added.filter(f) + p.filter(f).push(x) =~= (added.filter(f) + p.filter(f)).push(x));
        }
    }
}

/// The subscriptions a plan fans out to belong to no queue group.
proof fn lemma_fanout_plain<D>(subs: Seq<Subscription<D>>, gs: Seq<GroupView>, ids: Seq<SubscriptionId>)
    ensures
        forall|x: int| 0 <= x < plan_fold(subs, gs, ids).fanout.len() ==> sub_key(subs, #[trigger] plan_fold(subs, gs, ids).fanout[x]) is None,
    decreases ids.len(),
{
    if ids.len() > 0 {
        lemma_fanout_plain(subs, gs, ids.drop_last());
    }
}

/// A member a queue group picks belongs to that group.
proof fn lemma_pick_keyed<D>(subs: Seq<Subscription<D>>, gs: Seq<GroupView>, k: (Seq<char>, Seq<char>), m: SubscriptionId)
    requires
        members_live(subs, gs),
        ids_unique(subs),
        pick(gs, k).0 == Some(m),
    ensures
        has_id(subs, m),
        sub_key(subs, m) == Some(k),
{
    let i = group_pos(gs, k);
    let g = gs[i];
    let idx = (g.index as int) % (g.members.len() as int);
    assert(g.members[idx] == m);
    assert(member_ok(subs, gs[i].members[idx], gs[i].key));
    let w = choose|w: int| 0 <= w < subs.len() && #[trigger] subs[w].id == m && key_view(subs[w].queue_group_key) == Some(k);
    assert(has_id(subs, m));
    let f = find_id(subs, m);
    assert(subs[f].id == m);
    assert(f == w);
}

proof fn lemma_plan_single<D>(subs: Seq<Subscription<D>>, gs: Seq<GroupView>, id: SubscriptionId)
    requires
        has_id(subs, id),
        sub_key(subs, id) is Some,
    ensures
        plan(subs, gs, seq![id]).groups == pick(gs, sub_key(subs, id).unwrap()).1,
        plan_count(plan(subs, gs, seq![id])) == (if pick(gs, sub_key(subs, id).unwrap()).0 is Some { 1nat } else { 0nat }),
        plan(subs, gs, seq![id]).fanout == Seq::<SubscriptionId>::empty(),
        plan(subs, gs, seq![id]).picks == match pick(gs, sub_key(subs, id).unwrap()).0 {
            Some(m) => seq![m],
            None => Seq::<SubscriptionId>::empty(),
        },
{
    assert(seq![id].drop_last() =~= Seq::<SubscriptionId>::empty());
    assert(seq![id].last() == id);
    let init = plan_fold(subs, gs, Seq::<SubscriptionId>::empty());
    assert(init == PlanState { seen: Seq::empty(), picks: Seq::empty(), fanout: Seq::empty(), groups: gs });
    assert(plan_fold(subs, gs, seq![id]) == step(subs, init, id));
    assert(!init.seen.contains(sub_key(subs, id).unwrap()));
    match pick(gs, sub_key(subs, id).unwrap()).0 {
        Some(m) => {
            assert(Seq::<SubscriptionId>::empty().push(m) =~= seq![m]);
        },
        None => {},
    }
}

proof fn lemma_batch_single_sent<D>(
    subs: Seq<Subscription<D>>,
    e: RoutingEngine,
    gs: Seq<GroupView>,
    items: Seq<PublishItem>,
    sid: SubscriptionId,
    s0: SubjectView,
)
    requires
        forall|i: int| 0 <= i < items.len() ==> (#[trigger] items[i]).subject@ == s0,
        routed(&e, s0) == seq![sid],
        has_id(subs, sid),
        sub_key(subs, sid) is None,
    ensures
        batch_sent(subs, e, gs, items) == items.map_values(|it: PublishItem| item_sent(sid, it)),
    decreases items.len(),
{
    if items.len() > 0 {
        let p = items.drop_last();
        assert forall|i: int| 0 <= i < p.len() implies (#[trigger] p[i]).subject@ == s0 by {
            assert(p[i] == items[i]);
        }
        lemma_batch_single_sent(subs, e, gs, p, sid, s0);
        let ps = batch_subjects(p);
        assert forall|i: int| 0 <= i < ps.len() implies #[trigger] ps[i] == s0 by {
            assert(ps[i] == p[i].subject@);
        }
        lemma_batch_single_target(subs, e, gs, ps, sid, s0);
        assert(items.last() == items[items.len() - 1]);
        assert(seq![sid].drop_last() =~= Seq::<SubscriptionId>::empty());
        assert(seq![sid].last() == sid);
        let init = plan_fold(subs, gs, Seq::<SubscriptionId>::empty());
        assert(plan_fold(subs, gs, seq![sid]) == step(subs, init, sid));
        let pl = plan(subs, gs, seq![sid]);
        assert(pl.fanout =~= seq![sid]);
        assert(pl.picks =~= Seq::<SubscriptionId>::empty());
        assert(item_plan_sent(pl, items.last()) =~= seq![item_sent(sid, items.last())]);
        assert(items.map_values(|it: PublishItem| item_sent(sid, it)) =~= p.map_values(|it: PublishItem| item_sent(sid, it)).push(
            item_sent(sid, items.last()),
        ));
    }
}

proof fn lemma_batch_single_target<D>(
    subs: Seq<Subscription<D>>,
    e: RoutingEngine,
    gs: Seq<GroupView>,
    subjects: Seq<SubjectView>,
    sid: SubscriptionId,
    s0: SubjectView,
)
    requires
        forall|i: int| 0 <= i < subjects.len() ==> #[trigger] subjects[i] == s0,
        routed(&e, s0) == seq![sid],
        has_id(subs, sid),
        sub_key(subs, sid) is None,
    ensures
        batch_fold(subs, e, (gs, 0), subjects) == (gs, subjects.len()),
    decreases subjects.len(),
{
    if subjects.len() > 0 {
        let p = subjects.drop_last();
        assert forall|i: int| 0 <= i < p.len() implies #[trigger] p[i] == s0 by {
            assert(p[i] == subjects[i]);
        }
        lemma_batch_single_target(subs, e, gs, p, sid, s0);
        assert(subjects.last() == subjects[subjects.len() - 1]);
        assert(seq![sid].drop_last() =~= Seq::<SubscriptionId>::empty());
        assert(seq![sid].last() == sid);
        let init = plan_fold(subs, gs, Seq::<SubscriptionId>::empty());
        assert(plan_fold(subs, gs, seq![sid]) == step(subs, init, sid));
        assert(plan(subs, gs, seq![sid]).fanout =~= seq![sid]);
    }
}

/// Some of the removed subscriptions belonged to the group `g`.
pub open spec fn touched<D>(g: GroupView, removed: Seq<Subscription<D>>) -> bool {
    exists|i: int| 0 <= i < removed.len() && key_view(#[trigger] removed[i].queue_group_key) == Some(g.key)
}

/// The test "is none of `ids`".
pub open spec fn not_in(ids: Seq<SubscriptionId>) -> spec_fn(SubscriptionId) -> bool {
    |m: SubscriptionId| !ids.contains(m)
}

/// The queue groups after the subscriptions `removed` went away: a group
/// that one of them belonged to loses every removed member and disappears
/// when no member is left; the other groups stay as they are.
pub open spec fn cleanup<D>(gs: Seq<GroupView>, removed: Seq<Subscription<D>>) -> Seq<GroupView>
    decreases gs.len(),
{
    if gs.len() == 0 {
        Seq::empty()
    } else {
        let rest = cleanup(gs.drop_last(), removed);
        let g = gs.last();
        if touched(g, removed) {
            let kept = g.members.filter(not_in(sub_ids(removed)));
            if kept.len() == 0 {
                rest
            } else {
                rest.push(GroupView { members: kept, ..g })
            }
        } else {
            rest.push(g)
        }
    }
}

proof fn lemma_cleanup_from<D>(gs: Seq<GroupView>, removed: Seq<Subscription<D>>, x: GroupView)
    requires
        cleanup(gs, removed).contains(x),
    ensures
        exists|i: int| 0 <= i < gs.len() && (#[trigger] gs[i]).key == x.key && x.index == gs[i].index
            && ((!touched(gs[i], removed) && x.members == gs[i].members) || (touched(gs[i], removed) && x.members == gs[i].members.filter(not_in(sub_ids(removed))))),
    decreases gs.len(),
{
    if gs.len() > 0 {
        let rest = cleanup(gs.drop_last(), removed);
        if rest.contains(x) {
            lemma_cleanup_from(gs.drop_last(), removed, x);
            let i = choose|i: int| 0 <= i < gs.drop_last().len() && (#[trigger] gs.drop_last()[i]).key == x.key && x.index == gs.drop_last()[i].index
                && ((!touched(gs.drop_last()[i], removed) && x.members == gs.drop_last()[i].members) || (touched(gs.drop_last()[i], removed) && x.members == gs.drop_last()[i].members.filter(not_in(sub_ids(removed)))));
            assert(gs[i] == gs.drop_last()[i]);
        } else {
            assert(gs[gs.len() - 1] == gs.last());
        }
    }
}

proof fn lemma_cleanup_unique<D>(gs: Seq<GroupView>, removed: Seq<Subscription<D>>)
    requires
        group_keys_unique(gs),
    ensures
        group_keys_unique(cleanup(gs, removed)),
    decreases gs.len(),
{
    if gs.len() > 0 {
        let p = gs.drop_last();
        assert(group_keys_unique(p)) by {
            assert forall|i: int, j: int| 0 <= i < p.len() && 0 <= j < p.len() && i != j implies #[trigger] p[i].key != #[trigger] p[j].key by {
                assert(p[i] == gs[i] && p[j] == gs[j]);
            }
        }
        lemma_cleanup_unique(p, removed);
        let rest = cleanup(p, removed);
        let c = cleanup(gs, removed);
        assert forall|i: int, j: int| 0 <= i < c.len() && 0 <= j < c.len() && i != j implies #[trigger] c[i].key != #[trigger] c[j].key by {
            if i < rest.len() && j < rest.len() {
                assert(c[i] == rest[i] && c[j] == rest[j]);
            } else if i < rest.len() || j < rest.len() {
                let a = if i < rest.len() { i } else { j };
                assert(c[a] == rest[a]);
                assert(rest.contains(rest[a]));
                lemma_cleanup_from(p, removed, rest[a]);
                let w = choose|w: int| 0 <= w < p.len() && (#[trigger] p[w]).key == rest[a].key && rest[a].index == p[w].index
                    && ((!touched(p[w], removed) && rest[a].members == p[w].members) || (touched(p[w], removed) && rest[a].members == p[w].members.filter(not_in(sub_ids(removed)))));
                assert(gs[w] == p[w]);
                assert(gs[w].key != gs[gs.len() - 1].key);
            }
        }
    }
}

proof fn lemma_member_survives<D>(subs: Seq<Subscription<D>>, c: ConnectionId, m: SubscriptionId, k: (Seq<char>, Seq<char>))
    requires
        member_ok(subs, m, k),
        !sub_ids(subs.filter(on_conn(c))).contains(m),
    ensures
        member_ok(subs.filter(off_conn(c)), m, k),
{
    broadcast use vstd::seq_lib::group_filter_ensures;

    let q = choose|q: int| 0 <= q < subs.len() && #[trigger] subs[q].id == m && key_view(subs[q].queue_group_key) == Some(k);
    if subs[q].connection_id == c {
        let f = subs.filter(on_conn(c));
        assert(f.contains(subs[q]));
        let j = choose|j: int| 0 <= j < f.len() && f[j] == subs[q];
        assert(sub_ids(f)[j] == m);
    } else {
        let f = subs.filter(off_conn(c));
        assert(f.contains(subs[q]));
        let j = choose|j: int| 0 <= j < f.len() && f[j] == subs[q];
        assert(f[j].id == m);
    }
}

proof fn lemma_untouched_kept<D>(subs: Seq<Subscription<D>>, c: ConnectionId, m: SubscriptionId, g: GroupView)
    requires
        ids_unique(subs),
        member_ok(subs, m, g.key),
        !touched(g, subs.filter(on_conn(c))),
    ensures
        !sub_ids(subs.filter(on_conn(c))).contains(m),
{
    let f = subs.filter(on_conn(c));
    if sub_ids(f).contains(m) {
        let j = choose|j: int| 0 <= j < sub_ids(f).len() && sub_ids(f)[j] == m;
        assert(f.contains(f[j]));
        subs.lemma_filter_contains_rev(on_conn(c), f[j]);
        let q2 = choose|q2: int| 0 <= q2 < subs.len() && subs[q2] == f[j];
        let q = choose|q: int| 0 <= q < subs.len() && #[trigger] subs[q].id == m && key_view(subs[q].queue_group_key) == Some(g.key);
        if q != q2 {
            assert(subs[q].id != subs[q2].id);
        }
        assert(key_view(f[j].queue_group_key) == Some(g.key));
    }
}

proof fn lemma_cleanup_nothing<D>(gs: Seq<GroupView>, removed: Seq<Subscription<D>>)
    requires
        removed.len() == 0,
    ensures
        cleanup(gs, removed) == gs,
    decreases gs.len(),
{
    if gs.len() > 0 {
        lemma_cleanup_nothing(gs.drop_last(), removed);
        assert(gs.drop_last().push(gs.last()) =~= gs);
    }
}

/// Delivery law: a published subject is routed to a subscription exactly
/// when that subscription is live and its pattern matches the subject. So
/// a subscription receives every message whose subject its pattern
/// matches, and a cancelled subscription (or one of a removed connection)
/// receives nothing.
pub proof fn lemma_routed_iff_live_match<D: DeliveryHandle>(b: &BrokerCore<D>, s: SubjectView, id: SubscriptionId)
    requires
        b.wf(),
        subject_wf(s),
    ensures
        routed(&b.router_view(), s).contains(id) <==> exists|i: int|
            0 <= i < b.subs().len() && #[trigger] b.subs()[i].id == id && raw_matches(b.subs()[i].pattern@.raw, s.tokens),
{
    b.lemma_routes_match();
    let e = b.router_view();
    crate::routing::lemma_routing_complete(&e, s, id);
    if routed(&e, s).contains(id) {
        let raw = choose|raw: Seq<char>| #[trigger] e.subscriptions().contains((raw, id)) && raw_matches(raw, s.tokens);
        assert(pairs_of(b.subs()).contains((raw, id)));
        let i = choose|i: int| 0 <= i < b.subs().len() && (raw, id) == #[trigger] pair_of(b.subs()[i]);
        assert(b.subs()[i].id == id);
    }
    if exists|i: int| 0 <= i < b.subs().len() && #[trigger] b.subs()[i].id == id && raw_matches(b.subs()[i].pattern@.raw, s.tokens) {
        let i = choose|i: int| 0 <= i < b.subs().len() && #[trigger] b.subs()[i].id == id && raw_matches(b.subs()[i].pattern@.raw, s.tokens);
        let raw = b.subs()[i].pattern@.raw;
        assert((raw, id) == pair_of(b.subs()[i]));
        assert(pairs_of(b.subs()).contains((raw, id)));
        assert(e.subscriptions().contains((raw, id)));
    }
}

/// After `unsubscribe` removes a live subscription, no subscription with
/// its id is left (ids are unique).
pub proof fn lemma_unsubscribed_gone<D: DeliveryHandle>(b: &BrokerCore<D>, id: SubscriptionId)
    requires
        b.wf(),
        has_id(b.subs(), id),
    ensures
        !has_id(b.subs().remove(find_id(b.subs(), id)), id),
{
    b.lemma_routes_match();
    let s = b.subs();
    let k = find_id(s, id);
    let r = s.remove(k);
    if has_id(r, id) {
        let j = choose|j: int| 0 <= j < r.len() && #[trigger] r[j].id == id;
        let oj = if j < k { j } else { j + 1 };
        assert(r[j] == s[oj]);
        assert(s[oj].id == s[k].id);
    }
}

/// After `remove_connection`, no live subscription belongs to the
/// connection.
pub proof fn lemma_connection_gone<D>(subs: Seq<Subscription<D>>, c: ConnectionId)
    ensures
        forall|i: int| 0 <= i < subs.filter(off_conn(c)).len() ==> (#[trigger] subs.filter(off_conn(c))[i]).connection_id != c,
{
    broadcast use vstd::seq_lib::group_filter_ensures;
    assert forall|i: int| 0 <= i < subs.filter(off_conn(c)).len() implies (#[trigger] subs.filter(off_conn(c))[i]).connection_id != c by {
        let x = subs.filter(off_conn(c))[i];
        assert(subs.filter(off_conn(c)).contains(x));
    }
}

/// `j` successive round-robin picks in the group with key `k`.
pub open spec fn picks(gs: Seq<GroupView>, k: (Seq<char>, Seq<char>), j: nat) -> (Seq<Option<SubscriptionId>>, Seq<GroupView>)
    decreases j,
{
    if j == 0 {
        (Seq::empty(), gs)
    } else {
        let prev = picks(gs, k, (j - 1) as nat);
        let step = pick(prev.1, k);
        (prev.0.push(step.0), step.1)
    }
}

/// Round-robin law: successive picks in a group of `n` members take the
/// members in turn from the group's position, so any `n` successive picks
/// (before the position counter wraps) choose each member once.
pub proof fn lemma_round_robin(gs: Seq<GroupView>, k: (Seq<char>, Seq<char>), j: nat)
    requires
        group_keys_unique(gs),
        has_group(gs, k),
        gs[group_pos(gs, k)].members.len() > 0,
        gs[group_pos(gs, k)].index + j <= usize::MAX,
    ensures
        ({
            let g = gs[group_pos(gs, k)];
            let n = g.members.len() as int;
            &&& picks(gs, k, j).0.len() == j
            &&& forall|t: int| 0 <= t < j ==> #[trigger] picks(gs, k, j).0[t] == Some(g.members[(g.index + t) % n])
            &&& group_keys_unique(picks(gs, k, j).1)
            &&& has_group(picks(gs, k, j).1, k)
            &&& group_pos(picks(gs, k, j).1, k) == group_pos(gs, k)
            &&& picks(gs, k, j).1[group_pos(gs, k)] == GroupView { index: (g.index + j) as usize, ..g }
        }),
    decreases j,
{
    let i = group_pos(gs, k);
    let g = gs[i];
    if j > 0 {
        lemma_round_robin(gs, k, (j - 1) as nat);
        let prev = picks(gs, k, (j - 1) as nat);
        let pg = prev.1[i];
        assert(pg == GroupView { index: (g.index + j - 1) as usize, ..g });
        let next = prev.1.update(i, GroupView { index: wrap_inc(pg.index), ..pg });
        assert(pick(prev.1, k) == (Some(pg.members[(pg.index as int) % (pg.members.len() as int)]), next));
        assert forall|a: int, c: int| 0 <= a < next.len() && 0 <= c < next.len() && a != c implies #[trigger] next[a].key != #[trigger] next[c].key by {
            assert(next[a].key == prev.1[a].key && next[c].key == prev.1[c].key);
        }
        assert(next[i].key == k);
        assert(has_group(next, k));
        let q = group_pos(next, k);
        if q != i {
            assert(next[q].key == next[i].key);
        }
        let ps = picks(gs, k, j).0;
        assert forall|t: int| 0 <= t < j implies #[trigger] ps[t] == Some(g.members[(g.index + t) % (g.members.len() as int)]) by {
            if t < j - 1 {
                assert(ps[t] == prev.0[t]);
            }
        }
    } else {
        assert(gs.update(i, g) =~= gs) by {
            assert(GroupView { index: g.index, ..g } == g);
        }
    }
}

/// Within `n` successive picks of a group of `n` distinct members, no
/// member is chosen twice.
pub proof fn lemma_round_robin_distinct(members: Seq<SubscriptionId>, index: int, t1: int, t2: int)
    requires
        members.len() > 0,
        members.no_duplicates(),
        index >= 0,
        0 <= t1 < members.len(),
        0 <= t2 < members.len(),
        t1 != t2,
    ensures
        members[(index + t1) % (members.len() as int)] != members[(index + t2) % (members.len() as int)],
{
    let n = members.len() as int;
    let a = (index + t1) % n;
    let b = (index + t2) % n;
    assert(0 <= a < n && 0 <= b < n) by (nonlinear_arith)
        requires n > 0, a == (index + t1) % n, b == (index + t2) % n;
    assert(a != b) by (nonlinear_arith)
        requires
            n > 0,
            index >= 0,
            0 <= t1 < n,
            0 <= t2 < n,
            t1 != t2,
            a == (index + t1) % n,
            b == (index + t2) % n,
    {
        vstd::arithmetic::div_mod::lemma_fundamental_div_mod(index + t1, n);
        vstd::arithmetic::div_mod::lemma_fundamental_div_mod(index + t2, n);
    }
}

/// The broker: routes published messages to subscriptions, choosing one
/// member per queue group in turn, and counts what happens.
pub struct BrokerCore<D> {
    registry: SubscriptionRegistry<D>,
    metrics: CoreMetrics,
    sub_id_gen: IdGenerator,
    queue_groups: Vec<QueueGroupState>,
    subject_cache: SubjectCache,
    sent: Ghost<Seq<Sent>>,
    outcomes: Ghost<Seq<bool>>,
    handovers: Ghost<Seq<HandOver<D>>>,
}

impl<D: DeliveryHandle> BrokerCore<D> {
    /// The live subscriptions, in the order they were made.
    pub closed spec fn subs(&self) -> Seq<Subscription<D>> {
        self.registry.subs()
    }

    /// The routing engine.
    pub closed spec fn router_view(&self) -> RoutingEngine {
        self.registry.routes()
    }

    /// The queue groups.
    pub closed spec fn groups(&self) -> Seq<GroupView> {
        groups_view(self.queue_groups@)
    }

    /// The counters.
    pub closed spec fn counters(&self) -> CoreMetrics {
        self.metrics
    }

    /// Every message handed to a delivery handle so far, in order.
    pub closed spec fn sent_log(&self) -> Seq<Sent> {
        self.sent@
    }

    /// The outcome of each message handed over, in the order they were
    /// counted: true where the handle reported it delivered (for a batch,
    /// one true per message it accepted, first), false where it was
    /// counted as dropped.
    pub closed spec fn outcome_log(&self) -> Seq<bool> {
        self.outcomes@
    }

    /// Every call of a delivery handle so far, in order: the handle, the
    /// subscription, the messages given and the result returned.
    pub closed spec fn handover_log(&self) -> Seq<HandOver<D>> {
        self.handovers@
    }

    /// The number the next subscription id gets.
    pub closed spec fn next_id(&self) -> u64 {
        self.sub_id_gen.peek()
    }

    /// The broker's parts agree: the registry is consistent, ids below the
    /// next one are the only ones used, queue groups have distinct keys and
    /// only live members, and cached subjects are correctly parsed.
    pub closed spec fn wf(&self) -> bool {
        &&& self.registry.wf()
        &&& forall|i: int| 0 <= i < self.subs().len() ==> (#[trigger] self.subs()[i]).id.0 < self.next_id()
        &&& group_keys_unique(self.groups())
        &&& members_live(self.subs(), self.groups())
        &&& cache_sound(cached_subjects(self.subject_cache))
    }

    /// A broker without subscriptions, whose first subscription id is 1.
    pub fn new() -> (r: Self)
        ensures
            r.wf(),
            r.subs() == Seq::<Subscription<D>>::empty(),
            r.groups() == Seq::<GroupView>::empty(),
            r.next_id() == 1,
            snapshot_of(r.counters()) == zero_snapshot(),
            !r.router_view().wildcard_flag(),
            r.sent_log() == Seq::<Sent>::empty(),
            r.outcome_log() == Seq::<bool>::empty(),
            r.handover_log() == Seq::<HandOver<D>>::empty(),
    {
        let router = RoutingEngine::new();
        let registry = SubscriptionRegistry::new(router);
        let r = BrokerCore {
            registry,
            metrics: CoreMetrics::new(),
            sub_id_gen: IdGenerator::new(1),
            queue_groups: Vec::new(),
            subject_cache: cache_new(),
            sent: Ghost(Seq::empty()),
            outcomes: Ghost(Seq::empty()),
            handovers: Ghost(Seq::empty()),
        };
        assert(r.groups() =~= Seq::<GroupView>::empty());
        r
    }

    /// The position of the queue group with key `key`, if any.
    fn find_group(&self, key: &QueueGroupKey) -> (r: Option<usize>)
        requires
            group_keys_unique(self.groups()),
        ensures
            match r {
                Some(i) => has_group(self.groups(), (key.0@, key.1@)) && i == group_pos(
                    self.groups(),
                    (key.0@, key.1@),
                ) && i < self.groups().len(),
                None => !has_group(self.groups(), (key.0@, key.1@)),
            },
    {
        let ghost k = (key.0@, key.1@);
        let mut i: usize = 0;
        while i < self.queue_groups.len()
            invariant
                i <= self.queue_groups@.len(),
                self.groups().len() == self.queue_groups@.len(),
                k == (key.0@, key.1@),
                group_keys_unique(self.groups()),
                forall|j: int| 0 <= j < i ==> #[trigger] self.groups()[j].key != k,
            decreases self.queue_groups@.len() - i,
        {
            let g = &self.queue_groups[i];
            assert(self.groups()[i as int] == group_view(*g));
            let same0 = str_eq(g.key.0.as_str(), key.0.as_str());
            let same1 = str_eq(g.key.1.as_str(), key.1.as_str());
            assert(same0 == (g.key.0@ == key.0@));
            assert(same1 == (g.key.1@ == key.1@));
            if same0 && same1 {
                proof {
                    let gs = self.groups();
                    assert(gs[i as int].key == k);
                    assert(has_group(gs, k));
                    let j = group_pos(gs, k);
                    if j != i {
                        assert(gs[j].key != gs[i as int].key);
                    }
                }
                return Some(i);
            }
            i = i + 1;
        }
        None
    }

    /// Parses a subject, using the cache of earlier parses; the result is
    /// what `Subject::parse` gives.
    pub fn parse_subject(&mut self, input: &str) -> (r: Result<Subject, CoreError>)
        requires
            old(self).wf(),
        ensures
            final(self).wf(),
            subject_parse_result(input@, r),
            final(self).subs() == old(self).subs(),
            final(self).router_view() == old(self).router_view(),
            final(self).groups() == old(self).groups(),
            final(self).counters() == old(self).counters(),
            final(self).next_id() == old(self).next_id(),
            final(self).sent_log() == old(self).sent_log(),
            final(self).outcome_log() == old(self).outcome_log(),
            final(self).handover_log() == old(self).handover_log(),
    {
        match cache_get(&self.subject_cache, input) {
            Some(s) => {
                return Ok(s);
            },
            None => {},
        }
        let subj = Subject::parse(input);
        match subj {
            Ok(s) => {
                let copy = s.clone();
                cache_insert(&mut self.subject_cache, input.to_owned(), copy);
                Ok(s)
            },
            Err(e) => Err(e),
        }
    }

    /// A publish item for the subject text, parsed through the cache.
    pub fn build_publish_item(&mut self, subject_str: &str, payload: Vec<u8>) -> (r: Result<PublishItem, CoreError>)
        requires
            old(self).wf(),
        ensures
            final(self).wf(),
            final(self).subs() == old(self).subs(),
            final(self).router_view() == old(self).router_view(),
            final(self).groups() == old(self).groups(),
            final(self).counters() == old(self).counters(),
            final(self).next_id() == old(self).next_id(),
            match r {
                Ok(item) => valid_subject(trim(subject_str@)) && item.subject@ == parsed_subject(subject_str@)
                    && item.payload@ == payload@ && item.reply_to is None && item.headers is None,
                Err(e) => subject_parse_result(subject_str@, Err(e)),
            },
    {
        let subject = match self.parse_subject(subject_str) {
            Ok(s) => s,
            Err(e) => {
                return Err(e);
            },
        };
        Ok(PublishItem { subject, payload, reply_to: None, headers: None })
    }

    /// Whether the router may hold wildcard subscriptions.
    pub fn router_has_wildcards(&self) -> (r: bool)
        requires
            self.wf(),
        ensures
            r == self.router_view().wildcard_flag(),
            !r ==> self.router_view().trie_entries().len() == 0,
    {
        self.registry.router().has_wildcards()
    }

    /// Whether another subscription can be numbered and counted: the next
    /// id is below the top of its range and so is the trie's counter.
    pub fn has_subscribe_room(&self) -> (r: bool)
        requires
            self.wf(),
        ensures
            r == (self.next_id() < u64::MAX && self.router_view().trie_count() < usize::MAX),
    {
        self.sub_id_gen.current() < u64::MAX && self.registry.router().trie_subscriber_count() < usize::MAX
    }

    /// Whether `n` more subscriptions can be numbered and counted.
    pub fn has_room_for(&self, n: usize) -> (r: bool)
        requires
            self.wf(),
        ensures
            r == (self.next_id() + n < u64::MAX && self.router_view().trie_count() + n < usize::MAX),
    {
        let id = self.sub_id_gen.current();
        let count = self.registry.router().trie_subscriber_count();
        (n as u64) < u64::MAX - id && n < usize::MAX - count
    }

    /// Whether the subscription counter is above zero.
    pub fn has_active_subscriptions(&self) -> (r: bool)
        ensures
            r == (self.counters().active_subscriptions > 0),
    {
        self.metrics.active_subscriptions > 0
    }

    /// Whether no exact subscription is held under the subject text.
    pub fn router_exact_is_empty(&self, subject_str: &str) -> (r: bool)
        requires
            self.wf(),
        ensures
            r == (exact_ids(self.router_view().exact_map(), subject_str@).len() == 0),
    {
        self.registry.router().exact_is_empty(subject_str)
    }

    /// The single exact subscriber of the subject, when there is exactly one.
    pub fn router_exact_single_subscriber(&self, subject: &Subject) -> (r: Option<SubscriptionId>)
        requires
            self.wf(),
        ensures
            r == (if exact_ids(self.router_view().exact_map(), subject@.raw).len() == 1 {
                Some(exact_ids(self.router_view().exact_map(), subject@.raw)[0])
            } else {
                None
            }),
    {
        self.registry.router().exact_single_subscriber(subject)
    }

    /// Subscribes under the next id: joins the queue group when one is
    /// given, and routes the pattern to the new subscription.
    pub fn subscribe(
        &mut self,
        connection_id: ConnectionId,
        pattern: SubjectPattern,
        queue_group: Option<QueueGroupName>,
        delivery: Arc<D>,
    ) -> (r: SubscriptionId)
        requires
            old(self).wf(),
            old(self).next_id() < u64::MAX,
            old(self).router_view().trie_count() < usize::MAX,
        ensures
            final(self).sent_log() == old(self).sent_log(),
            final(self).outcome_log() == old(self).outcome_log(),
            final(self).handover_log() == old(self).handover_log(),
            final(self).wf(),
            r == SubscriptionId(old(self).next_id()),
            final(self).next_id() == old(self).next_id() + 1,
            final(self).subs().drop_last() == old(self).subs(),
            final(self).subs().len() == old(self).subs().len() + 1,
            final(self).subs().last().id == r,
            final(self).subs().last().connection_id == connection_id,
            final(self).subs().last().pattern == pattern,
            final(self).subs().last().queue_group == queue_group,
            key_view(final(self).subs().last().queue_group_key) == key_for(pattern@.raw, queue_group),
            final(self).subs().last().delivery == delivery,
            final(self).router_view().subscriptions() == old(self).router_view().subscriptions().insert(
                (pattern@.raw, r),
            ),
            final(self).router_view().trie_count() <= old(self).router_view().trie_count() + 1,
            final(self).groups() == (match key_for(pattern@.raw, queue_group) {
                Some(k) => join_group(old(self).groups(), k, r),
                None => old(self).groups(),
            }),
            snapshot_of(final(self).counters()) == (MetricsSnapshot {
                active_subscriptions: wrap_add(old(self).counters().active_subscriptions, 1),
                ..snapshot_of(old(self).counters())
            }),
    {
        let n = self.sub_id_gen.next();
        let sub_id = SubscriptionId::new(n);
        let ghost old_subs = self.subs();
        let ghost old_groups = self.groups();
        proof {
            if has_id(old_subs, sub_id) {
                let i = choose|i: int| 0 <= i < old_subs.len() && #[trigger] old_subs[i].id == sub_id;
                assert(old_subs[i].id.0 < n);
            }
        }
        let queue_group_key: Option<QueueGroupKey> = match &queue_group {
            Some(qg) => Some((pattern.as_str().to_owned(), qg.as_str().to_owned())),
            None => None,
        };
        match &queue_group_key {
            Some(key) => {
                let ghost k = (key.0@, key.1@);
                match self.find_group(key) {
                    Some(i) => {
                        self.queue_groups[i].members.push(sub_id);
                        proof {
                            assert(self.queue_groups@ =~= old(self).queue_groups@.update(
                                i as int,
                                self.queue_groups@[i as int],
                            ));
                            assert(self.groups() =~= join_group(old_groups, k, sub_id));
                        }
                    },
                    None => {
                        let mut members: Vec<SubscriptionId> = Vec::new();
                        members.push(sub_id);
                        self.queue_groups.push(QueueGroupState { key: clone_key(key), members, current_index: 0 });
                        proof {
                            assert(self.groups() =~= join_group(old_groups, k, sub_id));
                        }
                    },
                }
            },
            None => {},
        }
        let ghost mid_groups = self.groups();
        proof {
            match key_for(pattern@.raw, queue_group) {
                Some(k) => {
                    assert(mid_groups == join_group(old_groups, k, sub_id));
                },
                None => {
                    assert(mid_groups == old_groups);
                },
            }
        }
        self.registry.add(sub_id, connection_id, pattern, queue_group, queue_group_key, delivery);
        self.metrics.inc_subscriptions();
        proof {
            let subs = self.subs();
            let gs = self.groups();
            assert(subs =~= old_subs.push(subs.last()));
            assert forall|i: int| 0 <= i < subs.len() implies (#[trigger] subs[i]).id.0 < self.next_id() by {
                if i < old_subs.len() {
                    assert(subs[i] == old_subs[i]);
                }
            }
            assert forall|i: int, j: int|
                0 <= i < gs.len() && 0 <= j < gs[i].members.len() implies member_ok(
                subs,
                #[trigger] gs[i].members[j],
                gs[i].key,
            ) by {
                let m = gs[i].members[j];
                if i < old_groups.len() && j < old_groups[i].members.len() {
                    assert(gs[i].key == old_groups[i].key && m == old_groups[i].members[j]);
                    lemma_member_push(old_subs, subs.last(), m, gs[i].key);
                } else {
                    assert(m == sub_id);
                    assert(subs[subs.len() - 1].id == m);
                }
            }
            assert forall|i: int, j: int|
                0 <= i < gs.len() && 0 <= j < gs.len() && i != j implies #[trigger] gs[i].key != #[trigger] gs[j].key by {
                if i < old_groups.len() && j < old_groups.len() {
                    assert(gs[i].key == old_groups[i].key && gs[j].key == old_groups[j].key);
                }
            }
        }
        sub_id
    }

    /// The routing engine routes exactly the live subscriptions.
    pub proof fn lemma_routes_match(&self)
        requires
            self.wf(),
        ensures
            self.router_view().wf(),
            self.router_view().subscriptions() == pairs_of(self.subs()),
            ids_unique(self.subs()),
    {
        self.registry.lemma_wf();
    }

    /// Cancels subscription `sub_id`: removes it and its route, and takes it
    /// out of its queue group. Unknown ids are ignored.
    pub fn unsubscribe(&mut self, connection_id: ConnectionId, sub_id: SubscriptionId)
        requires
            old(self).wf(),
        ensures
            final(self).sent_log() == old(self).sent_log(),
            final(self).outcome_log() == old(self).outcome_log(),
            final(self).handover_log() == old(self).handover_log(),
            final(self).wf(),
            final(self).next_id() == old(self).next_id(),
            final(self).router_view().trie_count() <= old(self).router_view().trie_count(),
            has_id(old(self).subs(), sub_id) ==> {
                let i = find_id(old(self).subs(), sub_id);
                &&& final(self).subs() == old(self).subs().remove(i)
                &&& final(self).groups() == (match key_view(old(self).subs()[i].queue_group_key) {
                    Some(k) => leave_group(old(self).groups(), k, sub_id),
                    None => old(self).groups(),
                })
                &&& snapshot_of(final(self).counters()) == (MetricsSnapshot {
                    active_subscriptions: wrap_dec(old(self).counters().active_subscriptions),
                    ..snapshot_of(old(self).counters())
                })
            },
            !has_id(old(self).subs(), sub_id) ==> final(self).subs() == old(self).subs()
                && final(self).groups() == old(self).groups() && final(self).counters()
                == old(self).counters(),
    {
        let ghost old_subs = self.subs();
        let ghost old_groups = self.groups();
        proof {
            self.registry.lemma_wf();
        }
        match self.registry.remove(sub_id) {
            Some(sub) => {
                let ghost p = find_id(old_subs, sub_id);
                match &sub.queue_group_key {
                    Some(key) => match self.find_group(key) {
                        Some(i) => {
                            remove_id(&mut self.queue_groups[i].members, sub_id);
                            proof {
                                let k = (key.0@, key.1@);
                                assert(self.queue_groups@ =~= old(self).queue_groups@.update(
                                    i as int,
                                    self.queue_groups@[i as int],
                                ));
                                assert(self.groups() =~= leave_group(old_groups, k, sub_id));
                            }
                        },
                        None => {},
                    },
                    None => {},
                }
                self.metrics.dec_subscriptions();
                proof {
                    let subs = self.subs();
                    let gs = self.groups();
                    let kk = key_view(old_subs[p].queue_group_key);
                    assert forall|i: int| 0 <= i < subs.len() implies (#[trigger] subs[i]).id.0 < self.next_id() by {
                        if i < p {
                            assert(subs[i] == old_subs[i]);
                        } else {
                            assert(subs[i] == old_subs[i + 1]);
                        }
                    }
                    assert forall|i: int, j: int|
                        0 <= i < gs.len() && 0 <= j < gs[i].members.len() implies member_ok(
                        subs,
                        #[trigger] gs[i].members[j],
                        gs[i].key,
                    ) by {
                        let m = gs[i].members[j];
                        assert(gs[i].key == old_groups[i].key);
                        if kk is Some && has_group(old_groups, kk.unwrap()) && i == group_pos(old_groups, kk.unwrap()) {
                            let om = old_groups[i].members;
                            assert(gs[i].members == om.filter(not_id(sub_id)));
                            om.lemma_filter_contains_rev(not_id(sub_id), m);
                            assert(gs[i].members.contains(m));
                            broadcast use vstd::seq_lib::group_filter_ensures;
                            assert(not_id(sub_id)(gs[i].members[j]));
                            let jj = choose|jj: int| 0 <= jj < om.len() && om[jj] == m;
                            assert(member_ok(old_subs, old_groups[i].members[jj], old_groups[i].key));
                            lemma_member_remove(old_subs, p, m, gs[i].key);
                        } else {
                            assert(m == old_groups[i].members[j]);
                            assert(member_ok(old_subs, old_groups[i].members[j], old_groups[i].key));
                            if m == sub_id {
                                let q = choose|q: int| 0 <= q < old_subs.len() && #[trigger] old_subs[q].id == m
                                    && key_view(old_subs[q].queue_group_key) == Some(gs[i].key);
                                assert(q == p) by {
                                    if q != p {
                                        assert(old_subs[q].id != old_subs[p].id);
                                    }
                                }
                                assert(has_group(old_groups, gs[i].key));
                                let gp = group_pos(old_groups, gs[i].key);
                                if gp != i {
                                    assert(old_groups[gp].key != old_groups[i].key);
                                }
                            }
                            lemma_member_remove(old_subs, p, m, gs[i].key);
                        }
                    }
                }
            },
            None => {},
        }
    }

    /// Counts the outcome of one delivery.
    fn handle_delivery_status(&mut self, sub_id: SubscriptionId, status: DeliveryStatus)
        ensures
            final(self).subs() == old(self).subs(),
            final(self).registry == old(self).registry,
            final(self).queue_groups == old(self).queue_groups,
            final(self).sub_id_gen == old(self).sub_id_gen,
            final(self).subject_cache == old(self).subject_cache,
            final(self).sent == old(self).sent,
            final(self).handovers == old(self).handovers,
            final(self).outcomes@ == old(self).outcomes@.push(status is Delivered),
            logged_since(old(self).counters(), final(self).counters(), old(self).outcomes@, final(self).outcomes@),
            outcomes_recorded(old(self).counters(), final(self).counters(), 1),
            status is Delivered ==> final(self).counters() == (CoreMetrics {
                messages_delivered: wrap_add(old(self).counters().messages_delivered, 1),
                ..old(self).counters()
            }),
            !(status is Delivered) ==> final(self).counters() == (CoreMetrics {
                messages_dropped: wrap_add(old(self).counters().messages_dropped, 1),
                ..old(self).counters()
            }),
    {
        let ghost m0 = self.metrics;
        let ghost o0 = self.outcomes@;
        let ghost b = status is Delivered;
        self.outcomes = Ghost(self.outcomes@.push(b));
        proof {
            let new = self.outcomes@.skip(o0.len() as int);
            assert(new =~= seq![b]);
            assert(new.drop_last() =~= Seq::<bool>::empty());
            assert(trues(new.drop_last()) == 0);
            assert(trues(new) == if b { 1nat } else { 0nat });
            assert(self.outcomes@.take(o0.len() as int) =~= o0);
        }
        match status {
            DeliveryStatus::Delivered => {
                self.metrics.inc_delivered();
                proof {
                    lemma_wrap_add_n(m0.messages_delivered, 1);
                    vstd::arithmetic::div_mod::lemma_small_mod(m0.messages_dropped as nat, 0x1_0000_0000_0000_0000nat);
                    assert(self.metrics.messages_dropped == wrap_n(m0.messages_dropped, 0));
                }
            },
            _ => {
                self.metrics.inc_dropped();
                proof {
                    lemma_wrap_add_n(m0.messages_dropped, 1);
                    vstd::arithmetic::div_mod::lemma_small_mod(m0.messages_delivered as nat, 0x1_0000_0000_0000_0000nat);
                    assert(self.metrics.messages_delivered == wrap_n(m0.messages_delivered, 0));
                }
            },
        }
    }

    /// Delivers the message to subscription `sub_id`, if it is live, and
    /// counts the outcome.
    fn deliver_to_subscriber(&mut self, sub_id: SubscriptionId, message: &Message)
        requires
            old(self).wf(),
        ensures
            final(self).wf(),
            final(self).registry == old(self).registry,
            final(self).queue_groups == old(self).queue_groups,
            final(self).sub_id_gen == old(self).sub_id_gen,
            outcomes_recorded(
                old(self).counters(),
                final(self).counters(),
                if has_id(old(self).subs(), sub_id) { 1 } else { 0 },
            ),
            final(self).sent_log() == if has_id(old(self).subs(), sub_id) {
                old(self).sent_log().push(sent_of(sub_id, *message))
            } else {
                old(self).sent_log()
            },
            final(self).outcomes@.len() == old(self).outcomes@.len() + if has_id(old(self).subs(), sub_id) { 1int } else { 0int },
            logged_since(old(self).counters(), final(self).counters(), old(self).outcomes@, final(self).outcomes@),
            handed_since(
                old(self).subs(),
                old(self).handovers@,
                final(self).handovers@,
                old(self).sent@,
                final(self).sent@,
                old(self).outcomes@,
                final(self).outcomes@,
            ),
    {
        let ghost h0 = self.handovers@;
        let ghost s0 = self.sent@;
        let ghost o0 = self.outcomes@;
        proof {
            lemma_handed_none(self.subs(), h0, s0, o0);
        }
        match self.registry.position(sub_id) {
            Some(p) => {
                let sub = self.registry.at(p);
                let delivery = sub.delivery.clone();
                let connection_id = sub.connection_id;
                let msg = delivery_for(sub_id, connection_id, message);
                let ghost gm = msg;
                self.sent = Ghost(self.sent@.push(delivery_sent(msg)));
                let status = delivery.deliver(msg);
                self.handle_delivery_status(sub_id, status);
                let ghost h = HandOver::One { handle: delivery, sub: sub_id, msg: gm, status };
                self.handovers = Ghost(self.handovers@.push(h));
                proof {
                    assert(handover_msgs(h) =~= seq![gm]);
                    assert(msgs_sent(handover_msgs(h)) =~= seq![delivery_sent(gm)]);
                    assert(handed(h));
                    assert(addressed(self.subs(), h));
                    lemma_handed_push(self.subs(), h0, h0, s0, s0, o0, o0, h);
                    assert(s0 + msgs_sent(handover_msgs(h)) =~= self.sent@);
                    assert(o0 + handover_outcomes(h) =~= self.outcomes@);
                }
            },
            None => {
                proof {
                    lemma_outcomes_none(self.metrics);
                    lemma_logged_none(self.metrics, self.outcomes@);
                }
            },
        }
    }

    /// Delivers the message to one member of the queue group with key
    /// `key`, chosen round-robin, and advances the group's position.
    fn deliver_queue_group(&mut self, key: &QueueGroupKey, message: &Message)
        requires
            old(self).wf(),
        ensures
            final(self).wf(),
            final(self).registry == old(self).registry,
            final(self).sub_id_gen == old(self).sub_id_gen,
            final(self).groups() == pick(old(self).groups(), (key.0@, key.1@)).1,
            outcomes_recorded(
                old(self).counters(),
                final(self).counters(),
                if pick(old(self).groups(), (key.0@, key.1@)).0 is Some { 1 } else { 0 },
            ),
            final(self).sent_log() == match pick(old(self).groups(), (key.0@, key.1@)).0 {
                Some(m) => old(self).sent_log().push(sent_of(m, *message)),
                None => old(self).sent_log(),
            },
            final(self).outcomes@.len() == old(self).outcomes@.len()
                + if pick(old(self).groups(), (key.0@, key.1@)).0 is Some { 1int } else { 0int },
            logged_since(old(self).counters(), final(self).counters(), old(self).outcomes@, final(self).outcomes@),
            handed_since(
                old(self).subs(),
                old(self).handovers@,
                final(self).handovers@,
                old(self).sent@,
                final(self).sent@,
                old(self).outcomes@,
                final(self).outcomes@,
            ),
    {
        let ghost k = (key.0@, key.1@);
        let ghost gs0 = self.groups();
        proof {
            lemma_handed_none(self.subs(), self.handovers@, self.sent@, self.outcomes@);
        }
        match self.find_group(key) {
            None => {
                proof {
                    lemma_outcomes_none(self.metrics);
                    lemma_logged_none(self.metrics, self.outcomes@);
                }
            },
            Some(i) => {
                let len = self.queue_groups[i].members.len();
                if len == 0 {
                    proof {
                        assert(gs0[i as int] == group_view(self.queue_groups@[i as int]));
                        lemma_outcomes_none(self.metrics);
                        lemma_logged_none(self.metrics, self.outcomes@);
                    }
                    return;
                }
                let cur = self.queue_groups[i].current_index;
                let idx = cur % len;
                let chosen = self.queue_groups[i].members[idx];
                self.queue_groups[i].current_index = cur.wrapping_add(1);
                proof {
                    assert(self.queue_groups@ =~= old(self).queue_groups@.update(
                        i as int,
                        self.queue_groups@[i as int],
                    ));
                    assert(gs0[i as int] == group_view(old(self).queue_groups@[i as int]));
                    assert(self.groups() =~= pick(gs0, k).1);
                    assert(pick(gs0, k).0 == Some(chosen));
                    let gs = self.groups();
                    assert(member_ok(self.subs(), gs0[i as int].members[idx as int], gs0[i as int].key));
                    assert forall|a: int, b: int|
                        0 <= a < gs.len() && 0 <= b < gs[a].members.len() implies member_ok(
                        self.subs(),
                        #[trigger] gs[a].members[b],
                        gs[a].key,
                    ) by {
                        assert(gs[a].members == gs0[a].members && gs[a].key == gs0[a].key);
                        assert(member_ok(self.subs(), gs0[a].members[b], gs0[a].key));
                    }
                    assert forall|a: int, b: int|
                        0 <= a < gs.len() && 0 <= b < gs.len() && a != b implies #[trigger] gs[a].key
                        != #[trigger] gs[b].key by {
                        assert(gs[a].key == gs0[a].key && gs[b].key == gs0[b].key);
                    }
                    let subs = self.subs();
                    let w = choose|w: int| 0 <= w < subs.len() && #[trigger] subs[w].id == chosen
                        && key_view(subs[w].queue_group_key) == Some(gs0[i as int].key);
                    assert(has_id(subs, chosen));
                }
                self.deliver_to_subscriber(chosen, message);
            },
        }
    }

    /// Delivers the message along the plan for the matches `sub_ids`.
    fn deliver_matches(&mut self, message: &Message, sub_ids: &Vec<SubscriptionId>)
        requires
            old(self).wf(),
        ensures
            final(self).wf(),
            final(self).registry == old(self).registry,
            final(self).sub_id_gen == old(self).sub_id_gen,
            final(self).groups() == plan(old(self).subs(), old(self).groups(), sub_ids@).groups,
            outcomes_recorded(
                old(self).counters(),
                final(self).counters(),
                plan_count(plan(old(self).subs(), old(self).groups(), sub_ids@)),
            ),
            final(self).sent_log() == old(self).sent_log() + plan_sent(plan(old(self).subs(), old(self).groups(), sub_ids@), *message),
            final(self).outcomes@.len() == old(self).outcomes@.len() + plan_count(plan(old(self).subs(), old(self).groups(), sub_ids@)),
            logged_since(old(self).counters(), final(self).counters(), old(self).outcomes@, final(self).outcomes@),
            handed_since(
                old(self).subs(),
                old(self).handovers@,
                final(self).handovers@,
                old(self).sent@,
                final(self).sent@,
                old(self).outcomes@,
                final(self).outcomes@,
            ),
    {
        let ghost subs0 = self.subs();
        let ghost g0 = self.groups();
        let ghost m0 = self.metrics;
        let ghost o0 = self.outcomes@;
        let ghost h0 = self.handovers@;
        let ghost s0 = self.sent@;
        let ghost ids = sub_ids@;
        let mut fanout: Vec<(SubscriptionId, ConnectionId, Arc<D>)> = Vec::new();
        let mut seen: Vec<QueueGroupKey> = Vec::new();
        proof {
            lemma_handed_none(subs0, h0, s0, o0);
            lemma_outcomes_none(m0);
            lemma_logged_none(m0, o0);
            assert(ids.take(0) =~= Seq::<SubscriptionId>::empty());
            assert(keys_view(seen@) =~= Seq::<(Seq<char>, Seq<char>)>::empty());
        }
        let mut i: usize = 0;
        while i < sub_ids.len()
            invariant
                i <= ids.len(),
                ids == sub_ids@,
                self.wf(),
                self.registry == old(self).registry,
                self.sub_id_gen == old(self).sub_id_gen,
                subs0 == self.subs(),
                self.groups() == plan_fold(subs0, g0, ids.take(i as int)).groups,
                keys_view(seen@) == plan_fold(subs0, g0, ids.take(i as int)).seen,
                fanout@.map_values(|e: (SubscriptionId, ConnectionId, Arc<D>)| e.0) == plan_fold(
                    subs0,
                    g0,
                    ids.take(i as int),
                ).fanout,
                outcomes_recorded(m0, self.metrics, plan_fold(subs0, g0, ids.take(i as int)).picks.len()),
                o0 == old(self).outcomes@,
                self.outcomes@.len() == o0.len() + plan_fold(subs0, g0, ids.take(i as int)).picks.len(),
                logged_since(m0, self.metrics, o0, self.outcomes@),
                self.sent_log() == old(self).sent_log() + plan_fold(subs0, g0, ids.take(i as int)).picks.map_values(
                    |id: SubscriptionId| sent_of(id, *message),
                ),
                h0 == old(self).handovers@,
                s0 == old(self).sent@,
                handed_since(subs0, h0, self.handovers@, s0, self.sent@, o0, self.outcomes@),
                forall|k: int| 0 <= k < fanout@.len() ==> has_id(subs0, (#[trigger] fanout@[k]).0)
                    && fanout@[k].2 == subs0[find_id(subs0, fanout@[k].0)].delivery,
            decreases ids.len() - i,
        {
            let id = sub_ids[i];
            let ghost prev = plan_fold(subs0, g0, ids.take(i as int));
            let ghost mprev = self.metrics;
            let ghost oprev = self.outcomes@;
            let ghost hprev = self.handovers@;
            let ghost sprev = self.sent@;
            proof {
                assert(ids.take(i + 1).drop_last() =~= ids.take(i as int));
                assert(ids.take(i + 1).last() == id);
                assert(plan_fold(subs0, g0, ids.take(i + 1)) == step(subs0, prev, id));
            }
            match self.registry.position(id) {
                None => {},
                Some(p) => {
                    let sub = self.registry.at(p);
                    let connection_id = sub.connection_id;
                    let delivery = sub.delivery.clone();
                    let key: Option<QueueGroupKey> = match &sub.queue_group_key {
                        Some(k) => Some(clone_key(k)),
                        None => None,
                    };
                    assert(key_view(key) == sub_key(subs0, id));
                    match key {
                        Some(k) => {
                            if !key_seen(&seen, &k) {
                                self.deliver_queue_group(&k, message);
                                proof {
                                    lemma_handed_compose(subs0, h0, hprev, self.handovers@, s0, sprev, self.sent@, o0, oprev, self.outcomes@);
                                    lemma_logged_compose(m0, mprev, self.metrics, o0, oprev, self.outcomes@);
                                    lemma_outcomes_compose(
                                        m0,
                                        mprev,
                                        self.metrics,
                                        prev.picks.len(),
                                        if pick(prev.groups, (k.0@, k.1@)).0 is Some { 1 } else { 0 },
                                    );
                                    let f = |id: SubscriptionId| sent_of(id, *message);
                                    match pick(prev.groups, (k.0@, k.1@)).0 {
                                        Some(m) => {
                                            assert(prev.picks.push(m).map_values(f) =~= prev.picks.map_values(f).push(f(m)));
                                        },
                                        None => {},
                                    }
                                }
                                let ghost before = seen@;
                                seen.push(k);
                                proof {
                                    assert(keys_view(seen@) =~= keys_view(before).push((seen@.last().0@, seen@.last().1@)));
                                }
                            }
                        },
                        None => {
                            let ghost before = fanout@;
                            fanout.push((id, connection_id, delivery));
                            proof {
                                assert(fanout@.map_values(|e: (SubscriptionId, ConnectionId, Arc<D>)| e.0)
                                    =~= before.map_values(|e: (SubscriptionId, ConnectionId, Arc<D>)| e.0).push(id));
                                assert forall|k: int| 0 <= k < fanout@.len() implies has_id(subs0, (#[trigger] fanout@[k]).0)
                                    && fanout@[k].2 == subs0[find_id(subs0, fanout@[k].0)].delivery by {
                                    if k < before.len() {
                                        assert(fanout@[k] == before[k]);
                                    }
                                }
                            }
                        },
                    }
                },
            }
            i = i + 1;
        }
        proof {
            assert(ids.take(ids.len() as int) =~= ids);
        }
        let ghost st = plan_fold(subs0, g0, ids);
        let ghost npicks = plan(subs0, g0, ids).picks.len();
        proof {
            assert(st.fanout.take(0) =~= Seq::<SubscriptionId>::empty());
            assert(self.sent_log() =~= old(self).sent_log() + st.picks.map_values(|id: SubscriptionId| sent_of(id, *message))
                + st.fanout.take(0).map_values(|id: SubscriptionId| sent_of(id, *message)));
        }
        let mut j: usize = 0;
        while j < fanout.len()
            invariant
                j <= fanout@.len(),
                fanout@.len() == st.fanout.len(),
                self.wf(),
                self.registry == old(self).registry,
                self.sub_id_gen == old(self).sub_id_gen,
                self.groups() == plan(subs0, g0, ids).groups,
                outcomes_recorded(m0, self.metrics, npicks + j as nat),
                o0 == old(self).outcomes@,
                self.outcomes@.len() == o0.len() + npicks + j,
                logged_since(m0, self.metrics, o0, self.outcomes@),
                st == plan(subs0, g0, ids),
                fanout@.map_values(|e: (SubscriptionId, ConnectionId, Arc<D>)| e.0) == st.fanout,
                self.sent_log() == old(self).sent_log() + st.picks.map_values(|id: SubscriptionId| sent_of(id, *message))
                    + st.fanout.take(j as int).map_values(|id: SubscriptionId| sent_of(id, *message)),
                h0 == old(self).handovers@,
                s0 == old(self).sent@,
                subs0 == self.subs(),
                handed_since(subs0, h0, self.handovers@, s0, self.sent@, o0, self.outcomes@),
                forall|k: int| 0 <= k < fanout@.len() ==> has_id(subs0, (#[trigger] fanout@[k]).0)
                    && fanout@[k].2 == subs0[find_id(subs0, fanout@[k].0)].delivery,
            decreases fanout@.len() - j,
        {
            let ghost mprev = self.metrics;
            let ghost oprev = self.outcomes@;
            let ghost hprev = self.handovers@;
            let ghost sprev = self.sent@;
            let target = &fanout[j];
            let msg = delivery_for(target.0, target.1, message);
            let ghost gm = msg;
            let ghost before = self.sent_log();
            self.sent = Ghost(self.sent@.push(delivery_sent(msg)));
            let status = target.2.deliver(msg);
            let ghost h = HandOver::One { handle: fanout@[j as int].2, sub: fanout@[j as int].0, msg: gm, status };
            self.handle_delivery_status(target.0, status);
            self.handovers = Ghost(self.handovers@.push(h));
            proof {
                assert(handover_msgs(h) =~= seq![gm]);
                assert(msgs_sent(handover_msgs(h)) =~= seq![delivery_sent(gm)]);
                assert(handed(h));
                assert(addressed(subs0, h));
                lemma_handed_push(subs0, h0, hprev, s0, sprev, o0, oprev, h);
                assert(sprev + msgs_sent(handover_msgs(h)) =~= self.sent@);
                assert(oprev + handover_outcomes(h) =~= self.outcomes@);
            }
            proof {
                lemma_logged_compose(m0, mprev, self.metrics, o0, oprev, self.outcomes@);
                lemma_outcomes_compose(m0, mprev, self.metrics, npicks + j as nat, 1);
                let f = |id: SubscriptionId| sent_of(id, *message);
                assert(st.fanout[j as int] == fanout@[j as int].0);
                assert(st.fanout.take(j + 1) =~= st.fanout.take(j as int).push(st.fanout[j as int]));
                assert(st.fanout.take(j + 1).map_values(f) =~= st.fanout.take(j as int).map_values(f).push(f(st.fanout[j as int])));
            }
            j = j + 1;
        }
        proof {
            assert(st.fanout.take(st.fanout.len() as int) =~= st.fanout);
        }
        proof {
            assert(fanout@.len() == fanout@.map_values(|e: (SubscriptionId, ConnectionId, Arc<D>)| e.0).len());
        }
    }

    /// Publishes a message: counts it, and delivers it along the plan for
    /// the subscriptions whose patterns match its subject.
    pub fn publish(&mut self, message: Message)
        requires
            old(self).wf(),
        ensures
            final(self).wf(),
            final(self).subs() == old(self).subs(),
            final(self).router_view() == old(self).router_view(),
            final(self).next_id() == old(self).next_id(),
            final(self).groups() == plan(
                old(self).subs(),
                old(self).groups(),
                routed(&old(self).router_view(), message.subject@),
            ).groups,
            outcomes_recorded(
                with_published(old(self).counters(), 1),
                final(self).counters(),
                plan_count(plan(old(self).subs(), old(self).groups(), routed(&old(self).router_view(), message.subject@))),
            ),
            final(self).sent_log() == old(self).sent_log() + plan_sent(
                plan(old(self).subs(), old(self).groups(), routed(&old(self).router_view(), message.subject@)),
                message,
            ),
            final(self).outcome_log().len() == old(self).outcome_log().len() + plan_count(
                plan(old(self).subs(), old(self).groups(), routed(&old(self).router_view(), message.subject@)),
            ),
            logged_since(
                with_published(old(self).counters(), 1),
                final(self).counters(),
                old(self).outcome_log(),
                final(self).outcome_log(),
            ),
            handed_since(
                old(self).subs(),
                old(self).handover_log(),
                final(self).handover_log(),
                old(self).sent_log(),
                final(self).sent_log(),
                old(self).outcome_log(),
                final(self).outcome_log(),
            ),
    {
        self.metrics.inc_published();
        proof {
            self.registry.lemma_wf();
        }
        let sub_ids = self.registry.router().match_subject(&message.subject).into_vec();
        self.deliver_matches(&message, &sub_ids);
    }

    /// Publishes a message given by subject text: counts it; when some
    /// subscription may match, parses the subject (through the cache) and
    /// delivers along the plan for the exact subscriptions under the text
    /// and, when wildcard subscriptions may exist, the matching wildcard ones.
    pub fn publish_with_str(
        &mut self,
        subject_str: &str,
        payload: Vec<u8>,
        reply_to: Option<Subject>,
        headers: Option<HeaderMap>,
    )
        requires
            old(self).wf(),
        ensures
            final(self).wf(),
            final(self).subs() == old(self).subs(),
            final(self).router_view() == old(self).router_view(),
            final(self).next_id() == old(self).next_id(),
            final(self).groups() == plan(
                old(self).subs(),
                old(self).groups(),
                routed_str(old(self).router_view(), subject_str@),
            ).groups,
            outcomes_recorded(
                with_published(old(self).counters(), 1),
                final(self).counters(),
                plan_count(plan(old(self).subs(), old(self).groups(), routed_str(old(self).router_view(), subject_str@))),
            ),
            final(self).sent_log() == old(self).sent_log() + plan_sent_parts(
                plan(old(self).subs(), old(self).groups(), routed_str(old(self).router_view(), subject_str@)),
                parsed_subject(subject_str@),
                payload@,
                opt_subject_view(reply_to),
                opt_headers_view(headers),
            ),
            final(self).outcome_log().len() == old(self).outcome_log().len() + plan_count(
                plan(old(self).subs(), old(self).groups(), routed_str(old(self).router_view(), subject_str@)),
            ),
            logged_since(
                with_published(old(self).counters(), 1),
                final(self).counters(),
                old(self).outcome_log(),
                final(self).outcome_log(),
            ),
            handed_since(
                old(self).subs(),
                old(self).handover_log(),
                final(self).handover_log(),
                old(self).sent_log(),
                final(self).sent_log(),
                old(self).outcome_log(),
                final(self).outcome_log(),
            ),
    {
        self.metrics.inc_published();
        let ghost e = self.router_view();
        let ghost subs0 = self.subs();
        let ghost g0 = self.groups();
        proof {
            lemma_handed_none(subs0, self.handovers@, self.sent@, self.outcomes@);
            self.registry.lemma_wf();
            lemma_plan_empty(subs0, g0);
            lemma_outcomes_none(self.metrics);
            lemma_logged_none(self.metrics, self.outcomes@);
        }
        let (exact_matches, needs_wildcard_parse) = self.registry.router().match_subject_str(subject_str);
        let no_exact = exact_matches.is_empty();
        let exact_matches = exact_matches.into_vec();
        let ghost none_sent = plan_sent_parts(
            plan(subs0, g0, Seq::<SubscriptionId>::empty()),
            parsed_subject(subject_str@),
            payload@,
            opt_subject_view(reply_to),
            opt_headers_view(headers),
        );
        proof {
            assert(none_sent =~= Seq::<Sent>::empty());
            assert(self.sent_log() =~= self.sent_log() + none_sent);
        }
        if no_exact && !needs_wildcard_parse {
            proof {
                assert(routed_str(e, subject_str@) =~= Seq::<SubscriptionId>::empty());
            }
            return;
        }
        let subject = match self.parse_subject(subject_str) {
            Ok(s) => s,
            Err(_) => {
                proof {
                    assert(routed_str(e, subject_str@) =~= Seq::<SubscriptionId>::empty());
                }
                return;
            },
        };
        let mut sub_ids = exact_matches;
        if needs_wildcard_parse {
            proof {
                self.registry.lemma_wf();
            }
            let wild = self.registry.router().match_wildcards(&subject);
            let mut k: usize = 0;
            let ghost start = sub_ids@;
            while k < wild.len()
                invariant
                    k <= wild@.len(),
                    sub_ids@ == start + wild@.take(k as int),
                decreases wild@.len() - k,
            {
                sub_ids.push(wild.get(k));
                k = k + 1;
                assert(wild@.take(k as int) =~= wild@.take(k - 1).push(wild@[k - 1]));
            }
            assert(wild@.take(wild@.len() as int) =~= wild@);
        }
        assert(sub_ids@ == routed_str(e, subject_str@));
        let ghost parts = (subject@, payload@, opt_subject_view(reply_to), opt_headers_view(headers));
        let message = Message {
            id: MessageId::new(0),
            subject,
            payload,
            headers,
            reply_to,
            timestamp_ns: 0,
        };
        self.deliver_matches(&message, &sub_ids);
        proof {
            let st = plan(subs0, g0, sub_ids@);
            assert(plan_sent(st, message) =~= plan_sent_parts(st, parts.0, parts.1, parts.2, parts.3));
        }
    }

    /// Whether one of the removed subscriptions belonged to the group with key `key`.
    fn group_touched(key: &QueueGroupKey, removed: &Vec<Subscription<D>>) -> (r: bool)
        ensures
            r == touched(GroupView { key: (key.0@, key.1@), members: Seq::empty(), index: 0 }, removed@),
    {
        let ghost g = GroupView { key: (key.0@, key.1@), members: Seq::empty(), index: 0 };
        let mut i: usize = 0;
        while i < removed.len()
            invariant
                i <= removed@.len(),
                g.key == (key.0@, key.1@),
                forall|j: int| 0 <= j < i ==> key_view(#[trigger] removed@[j].queue_group_key) != Some(g.key),
            decreases removed@.len() - i,
        {
            match &removed[i].queue_group_key {
                Some(k) => {
                    if key_eq(k, key) {
                        assert(key_view(removed@[i as int].queue_group_key) == Some(g.key));
                        return true;
                    }
                },
                None => {},
            }
            i = i + 1;
        }
        false
    }

    /// The members that are none of `ids`.
    fn kept_members(members: &Vec<SubscriptionId>, ids: &Vec<SubscriptionId>) -> (r: Vec<SubscriptionId>)
        ensures
            r@ == members@.filter(not_in(ids@)),
    {
        let mut r: Vec<SubscriptionId> = Vec::new();
        let mut i: usize = 0;
        while i < members.len()
            invariant
                i <= members@.len(),
                r@ == members@.take(i as int).filter(not_in(ids@)),
            decreases members@.len() - i,
        {
            proof {
                reveal(Seq::filter);
                assert(members@.take(i + 1).drop_last() =~= members@.take(i as int));
                assert(members@.take(i + 1).last() == members@[i as int]);
            }
            let m = members[i];
            let mut found = false;
            let mut j: usize = 0;
            while j < ids.len()
                invariant
                    j <= ids@.len(),
                    found == ids@.take(j as int).contains(m),
                decreases ids@.len() - j,
            {
                proof {
                    assert(ids@.take(j + 1) =~= ids@.take(j as int).push(ids@[j as int]));
                    if ids@.take(j as int).contains(m) {
                        let w = choose|w: int| 0 <= w < j && #[trigger] ids@.take(j as int)[w] == m;
                        assert(ids@.take(j + 1)[w] == m);
                    }
                    if ids@[j as int] == m {
                        assert(ids@.take(j + 1)[j as int] == m);
                    }
                    if ids@.take(j + 1).contains(m) && ids@[j as int] != m {
                        let w = choose|w: int| 0 <= w < j + 1 && #[trigger] ids@.take(j + 1)[w] == m;
                        assert(ids@.take(j as int)[w] == m);
                    }
                }
                if ids[j] == m {
                    found = true;
                }
                j = j + 1;
            }
            proof {
                assert(ids@.take(ids@.len() as int) =~= ids@);
            }
            if !found {
                r.push(m);
            }
            i = i + 1;
        }
        proof {
            assert(members@.take(members@.len() as int) =~= members@);
        }
        r
    }

    /// Takes the removed subscriptions out of their queue groups and drops
    /// the groups left empty.
    fn cleanup_groups(&mut self, removed: &Vec<Subscription<D>>)
        ensures
            final(self).groups() == cleanup(old(self).groups(), removed@),
            final(self).registry == old(self).registry,
            final(self).metrics == old(self).metrics,
            final(self).sub_id_gen == old(self).sub_id_gen,
            final(self).subject_cache == old(self).subject_cache,
            final(self).sent == old(self).sent,
            final(self).outcomes == old(self).outcomes,
            final(self).handovers == old(self).handovers,
    {
        let mut ids: Vec<SubscriptionId> = Vec::new();
        let mut i: usize = 0;
        while i < removed.len()
            invariant
                i <= removed@.len(),
                ids@ == sub_ids(removed@.take(i as int)),
            decreases removed@.len() - i,
        {
            ids.push(removed[i].id);
            i = i + 1;
            assert(sub_ids(removed@.take(i as int)) =~= sub_ids(removed@.take(i - 1)).push(removed@[i - 1].id));
        }
        assert(removed@.take(removed@.len() as int) =~= removed@);
        let ghost all = self.groups();
        let mut rest: Vec<QueueGroupState> = Vec::new();
        std::mem::swap(&mut rest, &mut self.queue_groups);
        let mut out: Vec<QueueGroupState> = Vec::new();
        let ghost mut k: int = 0;
        while rest.len() > 0
            invariant
                0 <= k <= all.len(),
                ids@ == sub_ids(removed@),
                groups_view(rest@) == all.subrange(k, all.len() as int),
                groups_view(out@) == cleanup(all.take(k), removed@),
                self.registry == old(self).registry,
                self.metrics == old(self).metrics,
                self.sub_id_gen == old(self).sub_id_gen,
                self.subject_cache == old(self).subject_cache,
            decreases rest@.len(),
        {
            let ghost r0 = rest@;
            proof {
                assert(groups_view(r0).len() == r0.len());
                assert(groups_view(r0)[0] == group_view(r0[0]));
                assert(all.subrange(k, all.len() as int)[0] == all[k]);
            }
            let g = rest.remove(0);
            proof {
                assert(group_view(g) == all[k]);
                assert(all.take(k + 1).drop_last() =~= all.take(k));
                assert(all.take(k + 1).last() == all[k]);
                assert forall|x: int| 0 <= x < rest@.len() implies #[trigger] groups_view(rest@)[x] == all.subrange(k + 1, all.len() as int)[x] by {
                    assert(rest@[x] == r0[x + 1]);
                    assert(groups_view(r0)[x + 1] == group_view(r0[x + 1]));
                    assert(all.subrange(k, all.len() as int)[x + 1] == all[k + 1 + x]);
                }
                assert(groups_view(rest@) =~= all.subrange(k + 1, all.len() as int));
            }
            let t = Self::group_touched(&g.key, removed);
            assert(t == touched(all[k], removed@));
            if t {
                let kept = Self::kept_members(&g.members, &ids);
                if kept.len() > 0 {
                    let ghost before = out@;
                    out.push(QueueGroupState { key: g.key, members: kept, current_index: g.current_index });
                    assert(groups_view(out@) =~= groups_view(before).push(group_view(out@.last())));
                }
            } else {
                let ghost before = out@;
                out.push(g);
                assert(groups_view(out@) =~= groups_view(before).push(group_view(g)));
            }
            proof {
                k = k + 1;
            }
        }
        proof {
            assert(all.take(k) =~= all);
        }
        self.queue_groups = out;
    }

    /// Drops a connection: removes all its subscriptions and their routes,
    /// takes them out of their queue groups (dropping groups left empty),
    /// and counts the subscriptions and the connection as gone.
    pub fn remove_connection(&mut self, connection_id: ConnectionId)
        requires
            old(self).wf(),
        ensures
            final(self).sent_log() == old(self).sent_log(),
            final(self).outcome_log() == old(self).outcome_log(),
            final(self).handover_log() == old(self).handover_log(),
            final(self).wf(),
            final(self).next_id() == old(self).next_id(),
            final(self).router_view().trie_count() <= old(self).router_view().trie_count(),
            final(self).subs() == old(self).subs().filter(off_conn(connection_id)),
            final(self).groups() == cleanup(old(self).groups(), old(self).subs().filter(on_conn(connection_id))),
            snapshot_of(final(self).counters()) == (MetricsSnapshot {
                active_subscriptions: wrap_sub_n(
                    old(self).counters().active_subscriptions,
                    old(self).subs().filter(on_conn(connection_id)).len(),
                ),
                active_connections: wrap_dec(old(self).counters().active_connections),
                ..snapshot_of(old(self).counters())
            }),
    {
        let ghost subs0 = self.subs();
        let ghost g0 = self.groups();
        proof {
            self.registry.lemma_wf();
        }
        let removed = self.registry.remove_all_for_connection(connection_id);
        if removed.len() > 0 {
            self.cleanup_groups(&removed);
        } else {
            proof {
                lemma_cleanup_nothing(g0, removed@);
            }
        }
        let ghost m0 = self.metrics;
        proof {
            lemma_wrap_sub_step(m0.active_subscriptions, 0);
        }
        let mut k: usize = 0;
        while k < removed.len()
            invariant
                k <= removed@.len(),
                snapshot_of(self.metrics) == (MetricsSnapshot {
                    active_subscriptions: wrap_sub_n(m0.active_subscriptions, k as nat),
                    ..snapshot_of(m0)
                }),
                self.registry.wf(),
                self.subs() == subs0.filter(off_conn(connection_id)),
                removed@ == subs0.filter(on_conn(connection_id)),
                self.groups() == cleanup(g0, removed@),
                self.sub_id_gen == old(self).sub_id_gen,
                self.subject_cache == old(self).subject_cache,
                self.sent == old(self).sent,
                self.outcomes == old(self).outcomes,
                self.handovers == old(self).handovers,
                self.router_view().trie_count() <= old(self).router_view().trie_count(),
            decreases removed@.len() - k,
        {
            self.metrics.dec_subscriptions();
            proof {
                lemma_wrap_sub_step(m0.active_subscriptions, k as nat);
            }
            k = k + 1;
        }
        self.metrics.dec_active_connections();
        proof {
            let subs = self.subs();
            let gs = self.groups();
            self.registry.lemma_wf();
            lemma_cleanup_unique(g0, removed@);
            assert forall|i: int| 0 <= i < subs.len() implies (#[trigger] subs[i]).id.0 < self.next_id() by {
                assert(subs.contains(subs[i]));
                subs0.lemma_filter_contains_rev(off_conn(connection_id), subs[i]);
            }
            assert forall|i: int, j: int|
                0 <= i < gs.len() && 0 <= j < gs[i].members.len() implies member_ok(
                subs,
                #[trigger] gs[i].members[j],
                gs[i].key,
            ) by {
                let m = gs[i].members[j];
                assert(gs.contains(gs[i]));
                lemma_cleanup_from(g0, removed@, gs[i]);
                let w = choose|w: int| 0 <= w < g0.len() && (#[trigger] g0[w]).key == gs[i].key && gs[i].index == g0[w].index
                    && ((!touched(g0[w], removed@) && gs[i].members == g0[w].members) || (touched(g0[w], removed@) && gs[i].members == g0[w].members.filter(not_in(sub_ids(removed@)))));
                if touched(g0[w], removed@) {
                    broadcast use vstd::seq_lib::group_filter_ensures;
                    assert(not_in(sub_ids(removed@))(gs[i].members[j]));
                    assert(gs[i].members.contains(m));
                    g0[w].members.lemma_filter_contains_rev(not_in(sub_ids(removed@)), m);
                    let jj = choose|jj: int| 0 <= jj < g0[w].members.len() && g0[w].members[jj] == m;
                    assert(member_ok(subs0, g0[w].members[jj], g0[w].key));
                } else {
                    assert(member_ok(subs0, g0[w].members[j], g0[w].key));
                    lemma_untouched_kept(subs0, connection_id, m, g0[w]);
                }
                lemma_member_survives(subs0, connection_id, m, gs[i].key);
            }
        }
    }

    /// Counts `accepted` of `total` deliveries as delivered, the rest as dropped.
    fn record_outcomes(&mut self, accepted: usize, total: usize)
        requires
            accepted <= total,
        ensures
            outcomes_recorded(old(self).counters(), final(self).counters(), total as nat),
            final(self).registry == old(self).registry,
            final(self).queue_groups == old(self).queue_groups,
            final(self).sub_id_gen == old(self).sub_id_gen,
            final(self).subject_cache == old(self).subject_cache,
            final(self).sent == old(self).sent,
            final(self).handovers == old(self).handovers,
            final(self).outcomes@ == old(self).outcomes@ + accepted_outcomes(accepted as nat, total as nat),
            logged_since(old(self).counters(), final(self).counters(), old(self).outcomes@, final(self).outcomes@),
    {
        let ghost m0 = self.metrics;
        let ghost o0 = self.outcomes@;
        self.outcomes = Ghost(self.outcomes@ + accepted_outcomes(accepted as nat, total as nat));
        proof {
            lemma_accepted_outcomes(accepted as nat, total as nat);
            assert(self.outcomes@.skip(o0.len() as int) =~= accepted_outcomes(accepted as nat, total as nat));
            assert(self.outcomes@.take(o0.len() as int) =~= o0);
        }
        self.metrics.inc_delivered_by(accepted as u64);
        self.metrics.inc_dropped_by((total - accepted) as u64);
        proof {
            lemma_wrap_add_n(m0.messages_delivered, accepted as u64);
            lemma_wrap_add_n(m0.messages_dropped, (total - accepted) as u64);
            let d = accepted as nat;
            let p = (total - accepted) as nat;
            assert(self.metrics.messages_delivered == wrap_n(m0.messages_delivered, d));
            assert(self.metrics.messages_dropped == wrap_n(m0.messages_dropped, p));
        }
    }

    /// Publishes a batch: counts every item as published, then delivers
    /// each item to its matching subscriptions; queue groups take one
    /// round-robin choice per matching item, and the messages for each
    /// other subscription go out together, in the order of the batch.
    #[verifier::spinoff_prover]
    #[verifier::rlimit(80)]
    pub fn publish_batch(&mut self, items: Vec<PublishItem>)
        requires
            old(self).wf(),
        ensures
            final(self).wf(),
            final(self).subs() == old(self).subs(),
            final(self).router_view() == old(self).router_view(),
            final(self).next_id() == old(self).next_id(),
            final(self).groups() == batch_fold(
                old(self).subs(),
                old(self).router_view(),
                (old(self).groups(), 0),
                batch_subjects(items@),
            ).0,
            outcomes_recorded(
                with_published(old(self).counters(), items@.len() as u64),
                final(self).counters(),
                batch_fold(old(self).subs(), old(self).router_view(), (old(self).groups(), 0), batch_subjects(items@)).1,
            ),
            final(self).sent_log().len() >= old(self).sent_log().len(),
            final(self).sent_log().take(old(self).sent_log().len() as int) == old(self).sent_log(),
            final(self).sent_log().skip(old(self).sent_log().len() as int).to_multiset() == batch_sent(
                old(self).subs(),
                old(self).router_view(),
                old(self).groups(),
                items@,
            ).to_multiset(),
            forall|s: SubscriptionId| #[trigger] final(self).sent_log().skip(old(self).sent_log().len() as int).filter(for_sub(s))
                == batch_sent(old(self).subs(), old(self).router_view(), old(self).groups(), items@).filter(for_sub(s)),
            final(self).outcome_log().len() == old(self).outcome_log().len() + batch_fold(
                old(self).subs(),
                old(self).router_view(),
                (old(self).groups(), 0),
                batch_subjects(items@),
            ).1,
            logged_since(
                with_published(old(self).counters(), items@.len() as u64),
                final(self).counters(),
                old(self).outcome_log(),
                final(self).outcome_log(),
            ),
            handed_since(
                old(self).subs(),
                old(self).handover_log(),
                final(self).handover_log(),
                old(self).sent_log(),
                final(self).sent_log(),
                old(self).outcome_log(),
                final(self).outcome_log(),
            ),
    {
        let ghost subs0 = self.subs();
        let ghost o0 = self.outcomes@;
        let ghost h0 = self.handovers@;
        let ghost e0 = self.router_view();
        let ghost g0 = self.groups();
        let ghost subjects = batch_subjects(items@);
        let ghost log0 = self.sent_log();
        proof {
            lemma_handed_none(subs0, h0, log0, o0);
            assert(log0.take(log0.len() as int) =~= log0);
            assert(log0.skip(log0.len() as int) =~= Seq::<Sent>::empty());
        }
        if items.len() == 0 {
            proof {
                assert(batch_sent(subs0, e0, g0, items@) =~= Seq::<Sent>::empty());
                lemma_wrap_add_n(self.metrics.messages_published, 0);
                vstd::arithmetic::div_mod::lemma_small_mod(self.metrics.messages_published as nat, 0x1_0000_0000_0000_0000nat);
                lemma_outcomes_none(self.metrics);
                lemma_logged_none(self.metrics, o0);
            }
            return;
        }
        self.metrics.inc_published_by(items.len() as u64);
        let ghost m1 = self.metrics;
        proof {
            self.registry.lemma_wf();
        }
        if !self.router_has_wildcards() {
            match self.router_exact_single_subscriber(&items[0].subject) {
                Some(sub_id) => {
                    match self.registry.position(sub_id) {
                        Some(p) => {
                            let sub = self.registry.at(p);
                            if sub.queue_group_key.is_none() && all_same_subject(&items) {
                                let connection_id = sub.connection_id;
                                let delivery = sub.delivery.clone();
                                let total = items.len();
                                proof {
                                    let s0 = items@[0].subject@;
                                    lemma_matching_empty(e0.trie_entries(), s0.tokens);
                                    assert(exact_ids(e0.exact_map(), s0.raw) =~= seq![sub_id]);
                                    assert(routed(&e0, s0) =~= seq![sub_id]);
                                    assert forall|i: int| 0 <= i < subjects.len() implies #[trigger] subjects[i] == s0 by {
                                        assert(subjects[i] == items@[i].subject@);
                                    }
                                    lemma_batch_single_target(subs0, e0, g0, subjects, sub_id, s0);
                                }
                                proof {
                                    let s0 = items@[0].subject@;
                                    assert forall|i: int| 0 <= i < items@.len() implies (#[trigger] items@[i]).subject@ == s0 by {
                                        assert(subjects[i] == items@[i].subject@);
                                    }
                                    lemma_batch_single_sent(subs0, e0, g0, items@, sub_id, s0);
                                }
                                let mut msgs: Vec<DeliveryMessage> = Vec::new();
                                let mut i: usize = 0;
                                while i < items.len()
                                    invariant
                                        i <= items@.len(),
                                        msgs_sent(msgs@) == items@.take(i as int).map_values(|it: PublishItem| item_sent(sub_id, it)),
                                        msgs@.len() == i,
                                        forall|k: int| 0 <= k < msgs@.len() ==> (#[trigger] msgs@[k]).subscription_id == sub_id,
                                    decreases items@.len() - i,
                                {
                                    let d = item_delivery(sub_id, connection_id, &items[i]);
                                    let ghost before = msgs@;
                                    msgs.push(d);
                                    proof {
                                        assert(items@.take(i + 1) =~= items@.take(i as int).push(items@[i as int]));
                                        assert(msgs_sent(msgs@) =~= msgs_sent(before).push(delivery_sent(d)));
                                        assert(items@.take(i + 1).map_values(|it: PublishItem| item_sent(sub_id, it)) =~= items@.take(
                                            i as int,
                                        ).map_values(|it: PublishItem| item_sent(sub_id, it)).push(item_sent(sub_id, items@[i as int])));
                                    }
                                    i = i + 1;
                                }
                                proof {
                                    assert(items@.take(items@.len() as int) =~= items@);
                                }
                                self.sent = Ghost(self.sent@ + msgs_sent(msgs@));
                                proof {
                                    let l = self.sent_log();
                                    assert(l.take(log0.len() as int) =~= log0);
                                    assert(l.skip(log0.len() as int) =~= msgs_sent(msgs@));
                                }
                                let ghost gv = msgs;
                                let accepted = delivery.deliver_batch(msgs);
                                let accepted = if accepted > total { total } else { accepted };
                                self.record_outcomes(accepted, total);
                                let ghost h = HandOver::Batch { handle: delivery, sub: sub_id, msgs: gv, accepted };
                                self.handovers = Ghost(self.handovers@.push(h));
                                proof {
                                    assert(handed(h));
                                    assert(addressed(subs0, h));
                                    lemma_handed_push(subs0, h0, h0, log0, log0, o0, o0, h);
                                    assert(handover_outcomes(h) =~= accepted_outcomes(accepted as nat, total as nat));
                                }
                                return;
                            }
                        },
                        None => {},
                    }
                },
                None => {},
            }
        }
        let mut pending: Vec<(SubscriptionId, Vec<DeliveryMessage>)> = Vec::new();
        let ghost mut added: Seq<Sent> = Seq::empty();
        proof {
            lemma_outcomes_none(m1);
            lemma_logged_none(m1, o0);
            assert(subjects.take(0) =~= Seq::<SubjectView>::empty());
            assert(items@.take(0) =~= Seq::<PublishItem>::empty());
            assert(self.sent_log() =~= log0 + added);
            assert(added + pending_sent(pending@) =~= batch_sent(subs0, e0, g0, items@.take(0)));
        }
        let mut i: usize = 0;
        while i < items.len()
            invariant
                i <= items@.len(),
                subjects == batch_subjects(items@),
                self.wf(),
                self.registry == old(self).registry,
                self.sub_id_gen == old(self).sub_id_gen,
                subs0 == self.subs(),
                e0 == self.router_view(),
                self.groups() == batch_fold(subs0, e0, (g0, 0), subjects.take(i as int)).0,
                pending_total(pending@) <= batch_fold(subs0, e0, (g0, 0), subjects.take(i as int)).1,
                outcomes_recorded(
                    m1,
                    self.metrics,
                    (batch_fold(subs0, e0, (g0, 0), subjects.take(i as int)).1 - pending_total(pending@)) as nat,
                ),
                o0 == old(self).outcomes@,
                logged_since(m1, self.metrics, o0, self.outcomes@),
                self.outcomes@.len() == o0.len() + batch_fold(subs0, e0, (g0, 0), subjects.take(i as int)).1 - pending_total(pending@),
                forall|k: int| 0 <= k < pending@.len() ==> has_id(subs0, (#[trigger] pending@[k]).0),
                log0 == old(self).sent_log(),
                self.sent_log() == log0 + added,
                (added + pending_sent(pending@)).to_multiset() == batch_sent(subs0, e0, g0, items@.take(i as int)).to_multiset(),
                queues_ok(pending@),
                forall|k: int| 0 <= k < pending@.len() ==> sub_key(subs0, (#[trigger] pending@[k]).0) is None,
                forall|s: SubscriptionId| #[trigger] (added + pending_sent(pending@)).filter(for_sub(s))
                    == batch_sent(subs0, e0, g0, items@.take(i as int)).filter(for_sub(s)),
                h0 == old(self).handovers@,
                handed_since(subs0, h0, self.handovers@, log0, self.sent@, o0, self.outcomes@),
            decreases items@.len() - i,
        {
            let item = &items[i];
            proof {
                self.registry.lemma_wf();
            }
            let sub_ids = self.registry.router().match_subject(&item.subject).into_vec();
            let ghost ids = sub_ids@;
            let ghost acc_i = batch_fold(subs0, e0, (g0, 0), subjects.take(i as int));
            proof {
                assert(subjects.take(i + 1).drop_last() =~= subjects.take(i as int));
                assert(subjects.take(i + 1).last() == item.subject@);
                assert(ids.take(0) =~= Seq::<SubscriptionId>::empty());
            }
            let mut seen: Vec<QueueGroupKey> = Vec::new();
            proof {
                assert(keys_view(seen@) =~= Seq::<(Seq<char>, Seq<char>)>::empty());
                let b = batch_sent(subs0, e0, g0, items@.take(i as int));
                assert(item_plan_sent(plan_fold(subs0, acc_i.0, ids.take(0)), *item) =~= Seq::<Sent>::empty());
                assert(b + item_plan_sent(plan_fold(subs0, acc_i.0, ids.take(0)), *item) =~= b);
            }
            let mut j: usize = 0;
            while j < sub_ids.len()
                invariant
                    j <= ids.len(),
                    ids == sub_ids@,
                    self.wf(),
                    self.registry == old(self).registry,
                    self.sub_id_gen == old(self).sub_id_gen,
                    subs0 == self.subs(),
                    e0 == self.router_view(),
                    self.groups() == plan_fold(subs0, acc_i.0, ids.take(j as int)).groups,
                    keys_view(seen@) == plan_fold(subs0, acc_i.0, ids.take(j as int)).seen,
                    pending_total(pending@) <= acc_i.1 + plan_count(plan_fold(subs0, acc_i.0, ids.take(j as int))),
                    outcomes_recorded(
                        m1,
                        self.metrics,
                        (acc_i.1 + plan_count(plan_fold(subs0, acc_i.0, ids.take(j as int))) - pending_total(pending@)) as nat,
                    ),
                    o0 == old(self).outcomes@,
                    logged_since(m1, self.metrics, o0, self.outcomes@),
                    self.outcomes@.len() == o0.len() + acc_i.1 + plan_count(plan_fold(subs0, acc_i.0, ids.take(j as int)))
                        - pending_total(pending@),
                    forall|k: int| 0 <= k < pending@.len() ==> has_id(subs0, (#[trigger] pending@[k]).0),
                    log0 == old(self).sent_log(),
                    self.sent_log() == log0 + added,
                    item == &items@[i as int],
                    (added + pending_sent(pending@)).to_multiset() == (batch_sent(subs0, e0, g0, items@.take(i as int))
                        + item_plan_sent(plan_fold(subs0, acc_i.0, ids.take(j as int)), *item)).to_multiset(),
                    queues_ok(pending@),
                    forall|k: int| 0 <= k < pending@.len() ==> sub_key(subs0, (#[trigger] pending@[k]).0) is None,
                    forall|s: SubscriptionId| #[trigger] (added + pending_sent(pending@)).filter(for_sub(s))
                        == (batch_sent(subs0, e0, g0, items@.take(i as int))
                        + item_plan_sent(plan_fold(subs0, acc_i.0, ids.take(j as int)), *item)).filter(for_sub(s)),
                    h0 == old(self).handovers@,
                    handed_since(subs0, h0, self.handovers@, log0, self.sent@, o0, self.outcomes@),
                decreases ids.len() - j,
            {
                let id = sub_ids[j];
                let ghost accj = plan_fold(subs0, acc_i.0, ids.take(j as int));
                let ghost mprev = self.metrics;
                let ghost oprev = self.outcomes@;
                let ghost hprev = self.handovers@;
                let ghost sprev = self.sent@;
                proof {
                    assert(ids.take(j + 1).drop_last() =~= ids.take(j as int));
                    assert(ids.take(j + 1).last() == id);
                    assert(plan_fold(subs0, acc_i.0, ids.take(j + 1)) == step(subs0, accj, id));
                }
                match self.registry.position(id) {
                    None => {},
                    Some(p) => {
                        let sub = self.registry.at(p);
                        let connection_id = sub.connection_id;
                        let key: Option<QueueGroupKey> = match &sub.queue_group_key {
                            Some(k) => Some(clone_key(k)),
                            None => None,
                        };
                        assert(key_view(key) == sub_key(subs0, id));
                        match key {
                            Some(k) => {
                                if !key_seen(&seen, &k) {
                                    let message = item_message(item);
                                    let mut single: Vec<SubscriptionId> = Vec::new();
                                    single.push(id);
                                    proof {
                                        assert(single@ =~= seq![id]);
                                        lemma_plan_single(subs0, accj.groups, id);
                                    }
                                    let ghost lb = self.sent_log();
                                    proof {
                                        if pick(accj.groups, (k.0@, k.1@)).0 is Some {
                                            self.registry.lemma_wf();
                                            lemma_pick_keyed(subs0, accj.groups, (k.0@, k.1@), pick(accj.groups, (k.0@, k.1@)).0.unwrap());
                                        }
                                    }
                                    self.deliver_matches(&message, &single);
                                    proof {
                                        lemma_handed_compose(subs0, h0, hprev, self.handovers@, log0, sprev, self.sent@, o0, oprev, self.outcomes@);
                                        lemma_logged_compose(m1, mprev, self.metrics, o0, oprev, self.outcomes@);
                                        let x = plan_sent(plan(subs0, accj.groups, seq![id]), message);
                                        let b = batch_sent(subs0, e0, g0, items@.take(i as int));
                                        let f = |id: SubscriptionId| item_sent(id, *item);
                                        let nxt = plan_fold(subs0, acc_i.0, ids.take(j + 1));
                                        match pick(accj.groups, (k.0@, k.1@)).0 {
                                            Some(m) => {
                                                assert(x =~= seq![item_sent(m, *item)]);
                                                let a0 = added;
                                                added = added.push(item_sent(m, *item));
                                                assert(self.sent_log() =~= log0 + added);
                                                lemma_ms_push_left(a0, pending_sent(pending@), item_sent(m, *item));
                                                assert(nxt.picks == accj.picks.push(m));
                                                assert(nxt.fanout == accj.fanout);
                                                assert(nxt.picks.map_values(f) =~= accj.picks.map_values(f).push(item_sent(m, *item)));
                                                lemma_ms_push_left(b + accj.picks.map_values(f), accj.fanout.map_values(f), item_sent(m, *item));
                                                assert(b + item_plan_sent(nxt, *item) =~= (b + accj.picks.map_values(f)).push(item_sent(m, *item))
                                                    + accj.fanout.map_values(f));
                                                assert(b + item_plan_sent(accj, *item) =~= (b + accj.picks.map_values(f)) + accj.fanout.map_values(f));
                                                assert forall|q: int| 0 <= q < pending@.len() implies (#[trigger] pending@[q]).0 != m by {
                                                    assert(sub_key(subs0, pending@[q].0) is None);
                                                }
                                                lemma_pending_filter_absent(pending@, m);
                                                lemma_fanout_plain(subs0, acc_i.0, ids.take(j as int));
                                                let fm = accj.fanout.map_values(f);
                                                assert forall|q: int| 0 <= q < fm.len() implies !for_sub(m)(#[trigger] fm[q]) by {
                                                    assert(sub_key(subs0, accj.fanout[q]) is None);
                                                }
                                                lemma_filter_none_sent(fm, for_sub(m));
                                                assert(b + item_plan_sent(accj, *item) =~= b + accj.picks.map_values(f) + fm);
                                                lemma_step_pick_filters(a0, pending_sent(pending@), b, accj.picks.map_values(f), fm, item_sent(m, *item));
                                                assert(b + item_plan_sent(nxt, *item) =~= b + accj.picks.map_values(f).push(item_sent(m, *item)) + fm);
                                            },
                                            None => {
                                                assert(x =~= Seq::<Sent>::empty());
                                                assert(self.sent_log() =~= log0 + added);
                                                assert(nxt.picks == accj.picks);
                                                assert(nxt.fanout == accj.fanout);
                                            },
                                        }
                                        let c: nat = if pick(accj.groups, (k.0@, k.1@)).0 is Some { 1 } else { 0 };
                                        lemma_outcomes_compose(
                                            m1,
                                            mprev,
                                            self.metrics,
                                            (acc_i.1 + plan_count(accj) - pending_total(pending@)) as nat,
                                            c,
                                        );
                                    }
                                    let ghost before = seen@;
                                    seen.push(k);
                                    proof {
                                        assert(keys_view(seen@) =~= keys_view(before).push((seen@.last().0@, seen@.last().1@)));
                                    }
                                }
                            },
                            None => {
                                let ghost pt = pending_total(pending@);
                                let msg = item_delivery(id, connection_id, item);
                                let ghost before = pending@;
                                let ghost dm = msg;
                                push_pending(&mut pending, id, msg);
                                proof {
                                    broadcast use vstd::seq_lib::lemma_multiset_commutative;
                                    broadcast use vstd::multiset::group_multiset_axioms;
                                    let b = batch_sent(subs0, e0, g0, items@.take(i as int));
                                    let f = |id: SubscriptionId| item_sent(id, *item);
                                    let nxt = plan_fold(subs0, acc_i.0, ids.take(j + 1));
                                    assert(delivery_sent(dm) == item_sent(id, *item));
                                    assert(nxt.fanout == accj.fanout.push(id));
                                    assert(nxt.picks == accj.picks);
                                    assert(nxt.fanout.map_values(f) =~= accj.fanout.map_values(f).push(item_sent(id, *item)));
                                    assert(b + item_plan_sent(nxt, *item) =~= (b + item_plan_sent(accj, *item)).push(item_sent(id, *item)));
                                    (b + item_plan_sent(accj, *item)).to_multiset_ensures();
                                    let q0 = pending_sent(before).to_multiset();
                                    let q1 = pending_sent(pending@).to_multiset();
                                    assert((added + pending_sent(pending@)).to_multiset() =~= added.to_multiset().add(q1));
                                    assert((added + pending_sent(before)).to_multiset() =~= added.to_multiset().add(q0));
                                    assert(added.to_multiset().add(q1) =~= added.to_multiset().add(q0).insert(item_sent(id, *item)));
                                    assert forall|k: int| 0 <= k < pending@.len() implies has_id(subs0, (#[trigger] pending@[k]).0) by {
                                        if pending@[k].0 != id {
                                            let k2 = choose|k2: int| 0 <= k2 < before.len() && before[k2].0 == pending@[k].0;
                                            assert(has_id(subs0, before[k2].0));
                                        }
                                    }
                                    assert forall|k: int| 0 <= k < pending@.len() implies sub_key(subs0, (#[trigger] pending@[k]).0) is None by {
                                        if pending@[k].0 != id {
                                            let k2 = choose|k2: int| 0 <= k2 < before.len() && before[k2].0 == pending@[k].0;
                                            assert(sub_key(subs0, before[k2].0) is None);
                                        }
                                    }
                                    lemma_step_fan_filters(added, pending_sent(before), pending_sent(pending@), b + item_plan_sent(accj, *item), item_sent(id, *item));
                                }
                            },
                        }
                    },
                }
                j = j + 1;
            }
            proof {
                assert(ids.take(ids.len() as int) =~= ids);
                let t1 = items@.take(i + 1);
                assert(t1.drop_last() =~= items@.take(i as int));
                assert(t1.last() == items@[i as int]);
                assert(batch_subjects(items@.take(i as int)) =~= subjects.take(i as int));
                assert(batch_sent(subs0, e0, g0, t1) == batch_sent(subs0, e0, g0, items@.take(i as int))
                    + item_plan_sent(plan(subs0, acc_i.0, routed(&e0, items@[i as int].subject@)), items@[i as int]));
            }
            i = i + 1;
        }
        proof {
            assert(subjects.take(items@.len() as int) =~= subjects);
            assert(items@.take(items@.len() as int) =~= items@);
        }
        let ghost fin = batch_fold(subs0, e0, (g0, 0), subjects);
        while pending.len() > 0
            invariant
                self.wf(),
                self.registry == old(self).registry,
                self.sub_id_gen == old(self).sub_id_gen,
                subs0 == self.subs(),
                e0 == self.router_view(),
                self.groups() == fin.0,
                pending_total(pending@) <= fin.1,
                outcomes_recorded(m1, self.metrics, (fin.1 - pending_total(pending@)) as nat),
                o0 == old(self).outcomes@,
                logged_since(m1, self.metrics, o0, self.outcomes@),
                self.outcomes@.len() == o0.len() + fin.1 - pending_total(pending@),
                forall|k: int| 0 <= k < pending@.len() ==> has_id(subs0, (#[trigger] pending@[k]).0),
                log0 == old(self).sent_log(),
                self.sent_log() == log0 + added,
                (added + pending_sent(pending@)).to_multiset() == batch_sent(subs0, e0, g0, items@).to_multiset(),
                forall|s: SubscriptionId| #[trigger] (added + pending_sent(pending@)).filter(for_sub(s))
                    == batch_sent(subs0, e0, g0, items@).filter(for_sub(s)),
                queues_ok(pending@),
                h0 == old(self).handovers@,
                handed_since(subs0, h0, self.handovers@, log0, self.sent@, o0, self.outcomes@),
            decreases pending@.len(),
        {
            let ghost before = pending@;
            let ghost mprev = self.metrics;
            let ghost oprev = self.outcomes@;
            let ghost hprev = self.handovers@;
            let ghost sprev = self.sent@;
            let (sub_id, msgs) = pending.remove(0);
            let ghost gv = msgs;
            proof {
                assert(pending@ =~= before.drop_first());
                assert(before[0] == (sub_id, msgs));
                assert forall|t: int| 0 <= t < gv@.len() implies (#[trigger] gv@[t]).subscription_id == sub_id by {
                    assert(before[0].1@[t] == gv@[t]);
                }
                assert forall|k: int, t: int| 0 <= k < pending@.len() && 0 <= t < pending@[k].1@.len() implies (#[trigger] pending@[k].1@[t]).subscription_id == pending@[k].0 by {
                    assert(pending@[k] == before[k + 1]);
                    assert(before[k + 1].1@[t] == pending@[k].1@[t]);
                }
                assert forall|a: int, b: int| 0 <= a < pending@.len() && 0 <= b < pending@.len() && a != b implies (#[trigger] pending@[a]).0 != (#[trigger] pending@[b]).0 by {
                    assert(pending@[a] == before[a + 1]);
                    assert(pending@[b] == before[b + 1]);
                }
                assert(pending_sent(before) == msgs_sent(msgs@) + pending_sent(pending@));
                assert(added + msgs_sent(msgs@) + pending_sent(pending@) =~= added + pending_sent(before));
                assert forall|k: int| 0 <= k < pending@.len() implies has_id(subs0, (#[trigger] pending@[k]).0) by {
                    assert(pending@[k] == before[k + 1]);
                }
                assert(has_id(subs0, before[0].0));
            }
            let n = msgs.len();
            match self.registry.position(sub_id) {
                Some(p) => {
                    let delivery = self.registry.at(p).delivery.clone();
                    self.sent = Ghost(self.sent@ + msgs_sent(msgs@));
                    proof {
                        added = added + msgs_sent(msgs@);
                        assert(self.sent_log() =~= log0 + added);
                    }
                    let ghost mut h = HandOver::Batch { handle: delivery, sub: sub_id, msgs: gv, accepted: 0 };
                    let accepted: usize = if n == 1 {
                        let mut msgs = msgs;
                        let m = msgs.remove(0);
                        let ghost gm = m;
                        let status = delivery.deliver(m);
                        proof {
                            h = HandOver::One { handle: delivery, sub: sub_id, msg: gm, status };
                            assert(handover_msgs(h) =~= gv@);
                        }
                        match status {
                            DeliveryStatus::Delivered => 1,
                            _ => 0,
                        }
                    } else {
                        let a = delivery.deliver_batch(msgs);
                        proof {
                            h = HandOver::Batch { handle: delivery, sub: sub_id, msgs: gv, accepted: a };
                        }
                        if a > n {
                            n
                        } else {
                            a
                        }
                    };
                    self.record_outcomes(accepted, n);
                    self.handovers = Ghost(self.handovers@.push(h));
                    proof {
                        assert(handed(h));
                        assert(addressed(subs0, h));
                        lemma_handed_push(subs0, h0, hprev, log0, sprev, o0, oprev, h);
                        assert(handover_outcomes(h) =~= accepted_outcomes(accepted as nat, n as nat));
                        assert(sprev + msgs_sent(handover_msgs(h)) =~= self.sent@);
                        assert(oprev + handover_outcomes(h) =~= self.outcomes@);
                    }
                    proof {
                        lemma_outcomes_compose(m1, mprev, self.metrics, (fin.1 - pending_total(before)) as nat, n as nat);
                        lemma_logged_compose(m1, mprev, self.metrics, o0, oprev, self.outcomes@);
                    }
                },
                None => {
                    proof {
                        assert(false);
                    }
                },
            }
        }
        proof {
            assert(pending_sent(pending@) == Seq::<Sent>::empty());
            assert(added + pending_sent(pending@) =~= added);
            assert(self.sent_log().take(log0.len() as int) =~= log0);
            assert(self.sent_log().skip(log0.len() as int) =~= added);
        }
    }

    /// The number of the connection's subscriptions.
    pub fn subscription_count_for_connection(&self, connection_id: ConnectionId) -> (r: usize)
        ensures
            r == self.subs().filter(on_conn(connection_id)).len(),
    {
        self.registry.count_for_connection(connection_id)
    }

    /// The counters.
    pub fn metrics(&self) -> (r: &CoreMetrics)
        ensures
            *r == self.counters(),
    {
        &self.metrics
    }

    /// The broker with its counters replaced by `m`.
    pub closed spec fn with_counters(self, m: CoreMetrics) -> Self {
        BrokerCore { metrics: m, ..self }
    }

    /// The counters, for updating; nothing else changes.
    pub fn metrics_mut(&mut self) -> (r: &mut CoreMetrics)
        ensures
            *r == old(self).counters(),
            *final(self) == old(self).with_counters(*final(r)),
    {
        &mut self.metrics
    }

    /// Routing law: a publish reaches each subscription at most once, since
    /// the broker adds each subscription under an id it does not hold yet.
    pub proof fn lemma_routed_once(b: Self, s: SubjectView)
        requires
            b.wf(),
        ensures
            routed(&b.router_view(), s).no_duplicates(),
    {
        b.registry.lemma_wf();
        crate::routing::lemma_routing_no_duplicates(&b.router_view(), s);
    }

    /// Changing the counters keeps the broker consistent and changes
    /// nothing else.
    pub proof fn lemma_counters_free(a: Self, m: CoreMetrics)
        requires
            a.wf(),
        ensures
            a.with_counters(m).wf(),
            a.with_counters(m).counters() == m,
            a.with_counters(m).subs() == a.subs(),
            a.with_counters(m).groups() == a.groups(),
            a.with_counters(m).router_view() == a.router_view(),
            a.with_counters(m).next_id() == a.next_id(),
            a.with_counters(m).sent_log() == a.sent_log(),
            a.with_counters(m).outcome_log() == a.outcome_log(),
            a.with_counters(m).handover_log() == a.handover_log(),
    {
    }
}

/// Planning no matches changes nothing and delivers nothing.
proof fn lemma_plan_empty<D>(subs: Seq<Subscription<D>>, gs: Seq<GroupView>)
    ensures
        plan(subs, gs, Seq::empty()).groups == gs,
        plan_count(plan(subs, gs, Seq::empty())) == 0,
{
}

} // verus!
