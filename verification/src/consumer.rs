//! Durable consumers: a read position in a stream and the deliveries not
//! yet acknowledged.

use vstd::prelude::*;
use vstd::std_specs::iter::IteratorSpec;
use std::collections::HashMap;

use crate::error::StoreError;
use crate::memory::{MemoryStore, named, has_stream};
use crate::stream::{StoredMessage, StoredView, StreamView, read_spec, range_spec, stored_views, now_millis, opt_text};
use crate::subject::{Subject, parsed_subject, valid_subject};
use crate::subject_pattern::{SubjectPattern, parsed_pattern, pattern_matches, valid_pattern};
use crate::text::trim;
use crate::text::{concat_text, str_eq};

verus! {

broadcast use vstd::std_specs::hash::group_hash_axioms;

/// Where a consumer starts.
#[derive(Clone, Copy, Debug, PartialEq, Eq, Structural)]
pub enum DeliverPolicy {
    /// At the first message.
    All,
    /// At the last message.
    Last,
    /// After the last message.
    New,
    /// At the given sequence number.
    ByStartSequence { sequence: u64 },
}

impl Default for DeliverPolicy {
    /// Only new messages.
    fn default() -> (r: Self)
        ensures
            r == DeliverPolicy::New,
    {
        DeliverPolicy::New
    }
}

/// How deliveries are acknowledged.
#[derive(Clone, Copy, Debug, PartialEq, Eq, Structural)]
pub enum AckPolicy {
    /// Not at all.
    NoAck,
    /// Each one by itself.
    Explicit,
    /// An acknowledgement covers all before it.
    All,
}

impl Default for AckPolicy {
    /// Each delivery by itself.
    fn default() -> (r: Self)
        ensures
            r == AckPolicy::Explicit,
    {
        AckPolicy::Explicit
    }
}

/// A durable consumer's settings.
pub struct ConsumerConfig {
    /// The consumer's name.
    pub durable_name: String,
    /// The stream it reads.
    pub stream: String,
    /// Only messages on subjects matching this pattern.
    pub filter_subject: Option<String>,
    pub deliver_policy: DeliverPolicy,
    pub ack_policy: AckPolicy,
    /// Most deliveries left unacknowledged; 0 means no limit.
    pub max_ack_pending: u64,
}

/// A consumer's progress.
pub struct ConsumerState {
    /// The next sequence number to deliver.
    pub next_sequence: u64,
    /// How many deliveries await acknowledgement.
    pub pending_ack_count: u64,
    /// Sequence number to delivery time, for each delivery awaiting
    /// acknowledgement.
    pub pending_acks: HashMap<u64, u64>,
    /// Deliveries made.
    pub delivered_count: u64,
    /// Acknowledgements accepted.
    pub acked_count: u64,
}

impl Default for ConsumerState {
    /// All counters 0 and nothing pending.
    fn default() -> (r: Self)
        ensures
            r.next_sequence == 0,
            r.pending_ack_count == 0,
            r.pending_acks@ == Map::<u64, u64>::empty(),
            r.delivered_count == 0,
            r.acked_count == 0,
    {
        ConsumerState {
            next_sequence: 0,
            pending_ack_count: 0,
            pending_acks: HashMap::new(),
            delivered_count: 0,
            acked_count: 0,
        }
    }
}

/// The sequence number a consumer starts at, given the stream's last.
pub open spec fn start_sequence(policy: DeliverPolicy, stream_last_seq: u64) -> int {
    match policy {
        DeliverPolicy::All => 1,
        DeliverPolicy::Last => if stream_last_seq >= 1 { stream_last_seq as int } else { 1 },
        DeliverPolicy::New => stream_last_seq + 1,
        DeliverPolicy::ByStartSequence { sequence } => sequence as int,
    }
}

/// A durable consumer of a stream.
pub struct Consumer {
    config: ConsumerConfig,
    state: ConsumerState,
}

/// What a consumer's progress holds.
pub struct ConsumerStateView {
    pub next_sequence: u64,
    pub pending_ack_count: u64,
    pub pending_acks: Map<u64, u64>,
    pub delivered_count: u64,
    pub acked_count: u64,
}

/// What a consumer holds.
pub struct ConsumerView {
    pub durable_name: Seq<char>,
    pub stream: Seq<char>,
    pub filter_subject: Option<Seq<char>>,
    pub deliver_policy: DeliverPolicy,
    pub ack_policy: AckPolicy,
    pub max_ack_pending: u64,
    pub state: ConsumerStateView,
}

/// A consumer's progress as values.
pub open spec fn state_view(s: ConsumerState) -> ConsumerStateView {
    ConsumerStateView {
        next_sequence: s.next_sequence,
        pending_ack_count: s.pending_ack_count,
        pending_acks: s.pending_acks@,
        delivered_count: s.delivered_count,
        acked_count: s.acked_count,
    }
}

/// The progress of a consumer that has delivered nothing yet.
pub open spec fn fresh_state(next_sequence: u64) -> ConsumerStateView {
    ConsumerStateView {
        next_sequence,
        pending_ack_count: 0,
        pending_acks: Map::empty(),
        delivered_count: 0,
        acked_count: 0,
    }
}

/// The progress after delivering `sequence` at time `now`.
pub open spec fn delivered(s: ConsumerStateView, sequence: u64, now: u64) -> ConsumerStateView {
    ConsumerStateView {
        next_sequence: (sequence + 1) as u64,
        pending_ack_count: s.pending_acks.insert(sequence, now).len() as u64,
        pending_acks: s.pending_acks.insert(sequence, now),
        delivered_count: (s.delivered_count + 1) as u64,
        acked_count: s.acked_count,
    }
}

/// The pending deliveries an acknowledgement of `sequence` leaves: under
/// `AckPolicy::All` it covers every delivery up to `sequence`, otherwise
/// only `sequence` itself.
pub open spec fn ack_remaining(pending: Map<u64, u64>, sequence: u64, policy: AckPolicy) -> Map<u64, u64> {
    if policy == AckPolicy::All {
        pending.restrict(Set::new(|k: u64| k > sequence))
    } else {
        pending.remove(sequence)
    }
}

/// The progress after an acknowledgement of `sequence`, which was pending,
/// under `policy`.
pub open spec fn acked(s: ConsumerStateView, sequence: u64, policy: AckPolicy) -> ConsumerStateView {
    ConsumerStateView {
        next_sequence: s.next_sequence,
        pending_ack_count: ack_remaining(s.pending_acks, sequence, policy).len() as u64,
        pending_acks: ack_remaining(s.pending_acks, sequence, policy),
        delivered_count: s.delivered_count,
        acked_count: (s.acked_count + 1) as u64,
    }
}

/// The pending sequence numbers up to `upto`.
fn keys_up_to(m: &HashMap<u64, u64>, upto: u64) -> (r: Vec<u64>)
    ensures
        forall|k: u64| #[trigger] r@.contains(k) <==> (m@.contains_key(k) && k <= upto),
{
    let mut out: Vec<u64> = Vec::new();
    let keys = m.keys();
    let ghost ks = IteratorSpec::remaining(&keys).unref();
    proof {
        assert(keys == vstd::std_specs::hash::spec_keys_iter(m));
        assert(ks.to_set() == m@.dom());
        assert forall|k: u64| m@.contains_key(k) implies exists|i: int| 0 <= i < ks.len() && ks[i] == k by {
            assert(ks.to_set().contains(k));
        }
        assert forall|i: int| 0 <= i < ks.len() implies m@.contains_key(ks[i]) by {
            assert(ks.contains(ks[i]));
            assert(ks.to_set().contains(ks[i]));
        }
    }
    for k in it: keys
        invariant
            it.seq().unref() == ks,
            forall|k: u64| #[trigger] out@.contains(k) ==> (m@.contains_key(k) && k <= upto),
            forall|i: int| 0 <= i < it.index() && ks[i] <= upto ==> out@.contains(ks[i]),
            forall|i: int| 0 <= i < ks.len() ==> m@.contains_key(ks[i]),
            forall|k: u64| m@.contains_key(k) ==> exists|i: int| 0 <= i < ks.len() && ks[i] == k,
    {
        let ghost idx = it.index();
        let ghost out0 = out@;
        proof {
            assert(0 <= idx < ks.len());
            assert(*k == ks[idx]);
            assert(m@.contains_key(*k));
        }
        if *k <= upto {
            out.push(*k);
        }
        proof {
            assert forall|y: u64| #[trigger] out@.contains(y) implies m@.contains_key(y) && y <= upto by {
                if y != *k || *k > upto {
                    assert(out0.contains(y));
                }
            }
            assert forall|i: int| 0 <= i < idx + 1 && ks[i] <= upto implies out@.contains(ks[i]) by {
                if i < idx {
                    assert(out0.contains(ks[i]));
                    let j = choose|j: int| 0 <= j < out0.len() && out0[j] == ks[i];
                    assert(out@[j] == ks[i]);
                } else {
                    assert(out@[out@.len() - 1] == ks[i]);
                }
            }
        }
    }
    out
}

/// Whether the consumer has as many pending deliveries as its limit allows.
pub open spec fn backpressured(c: ConsumerView) -> bool {
    c.max_ack_pending > 0 && c.state.pending_ack_count >= c.max_ack_pending
}

impl View for Consumer {
    type V = ConsumerView;

    closed spec fn view(&self) -> ConsumerView {
        ConsumerView {
            durable_name: self.config.durable_name@,
            stream: self.config.stream@,
            filter_subject: opt_text(self.config.filter_subject),
            deliver_policy: self.config.deliver_policy,
            ack_policy: self.config.ack_policy,
            max_ack_pending: self.config.max_ack_pending,
            state: state_view(self.state),
        }
    }
}

/// Whether a message on `subject` passes the filter pattern `filter`.
fn subject_passes(filter: &str, subject: &str) -> (r: bool)
    ensures
        r == passes_filter(filter@, subject@),
{
    match SubjectPattern::parse(filter) {
        Ok(p) => match Subject::parse(subject) {
            Ok(s) => p.matches(&s),
            Err(_) => false,
        },
        Err(_) => false,
    }
}

/// The position of the first message of `list` whose subject passes the
/// filter `filter`.
fn find_passing(list: &Vec<StoredMessage>, filter: &str) -> (r: Option<usize>)
    ensures
        match r {
            Some(k) => k < list@.len() && first_passing(stored_views(list@), filter@) == Some(list@[k as int]@),
            None => first_passing(stored_views(list@), filter@) is None,
        },
{
    let ghost all = stored_views(list@);
    let mut k: usize = 0;
    assert(all.subrange(0, all.len() as int) =~= all);
    while k < list.len()
        invariant
            k <= list@.len(),
            all == stored_views(list@),
            first_passing(all, filter@) == first_passing(all.subrange(k as int, all.len() as int), filter@),
        decreases list@.len() - k,
    {
        let ghost rest = all.subrange(k as int, all.len() as int);
        assert(rest[0] == list@[k as int]@);
        if subject_passes(filter, list[k].subject.as_str()) {
            return Some(k);
        }
        assert(rest.drop_first() =~= all.subrange(k + 1, all.len() as int));
        k = k + 1;
    }
    assert(all.subrange(k as int, all.len() as int) =~= Seq::<StoredView>::empty());
    None
}

impl Consumer {
    /// A consumer with settings `config` on a stream whose last sequence
    /// number is `stream_last_seq`; it starts where its policy says.
    pub fn new(config: ConsumerConfig, stream_last_seq: u64) -> (r: Consumer)
        requires
            config.deliver_policy == DeliverPolicy::New ==> stream_last_seq < u64::MAX,
        ensures
            r@.durable_name == config.durable_name@,
            r@.stream == config.stream@,
            r@.deliver_policy == config.deliver_policy,
            r@.ack_policy == config.ack_policy,
            r@.max_ack_pending == config.max_ack_pending,
            r@.state == fresh_state(start_sequence(config.deliver_policy, stream_last_seq) as u64),
            r@.filter_subject == opt_text(config.filter_subject),
    {
        let start_seq: u64 = match config.deliver_policy {
            DeliverPolicy::All => 1,
            DeliverPolicy::Last => if stream_last_seq >= 1 { stream_last_seq } else { 1 },
            DeliverPolicy::New => stream_last_seq + 1,
            DeliverPolicy::ByStartSequence { sequence } => sequence,
        };
        let mut state = ConsumerState::default();
        state.next_sequence = start_seq;
        Consumer { config, state }
    }

    /// The consumer's settings.
    pub fn config(&self) -> (r: &ConsumerConfig)
        ensures
            r.durable_name@ == self@.durable_name,
            r.stream@ == self@.stream,
            opt_text(r.filter_subject) == self@.filter_subject,
            r.deliver_policy == self@.deliver_policy,
            r.ack_policy == self@.ack_policy,
            r.max_ack_pending == self@.max_ack_pending,
    {
        &self.config
    }

    /// The consumer's progress.
    pub fn state(&self) -> (r: &ConsumerState)
        ensures
            state_view(*r) == self@.state,
    {
        &self.state
    }

    /// Records that `sequence` was delivered at time `now`: it awaits
    /// acknowledgement and delivery goes on after it.
    pub fn record_delivery_at(&mut self, sequence: u64, now: u64)
        requires
            old(self)@.state.delivered_count < u64::MAX,
            sequence < u64::MAX,
        ensures
            final(self)@ == (ConsumerView { state: delivered(old(self)@.state, sequence, now), ..old(self)@ }),
            final(self)@.state.pending_ack_count == final(self)@.state.pending_acks.len(),
    {
        self.state.pending_acks.insert(sequence, now);
        self.state.pending_ack_count = self.state.pending_acks.len() as u64;
        self.state.delivered_count = self.state.delivered_count + 1;
        self.state.next_sequence = sequence + 1;
    }

    /// Records that `sequence` was delivered, stamped with the clock.
    pub fn record_delivery(&mut self, sequence: u64)
        requires
            old(self)@.state.delivered_count < u64::MAX,
            sequence < u64::MAX,
        ensures
            exists|now: u64| final(self)@ == (ConsumerView { state: #[trigger] delivered(old(self)@.state, sequence, now), ..old(self)@ }),
            final(self)@.state.pending_ack_count == final(self)@.state.pending_acks.len(),
    {
        let now = now_millis();
        self.record_delivery_at(sequence, now);
    }

    /// Acknowledges `sequence`: true where it awaited acknowledgement, which
    /// it then no longer does, nor, under `AckPolicy::All`, does any delivery
    /// before it; false, with nothing changed, otherwise.
    pub fn ack(&mut self, sequence: u64) -> (r: bool)
        requires
            old(self)@.state.acked_count < u64::MAX,
        ensures
            r == old(self)@.state.pending_acks.contains_key(sequence),
            r ==> final(self)@ == (ConsumerView { state: acked(old(self)@.state, sequence, old(self)@.ack_policy), ..old(self)@ }),
            r ==> final(self)@.state.pending_ack_count == final(self)@.state.pending_acks.len(),
            !r ==> final(self)@ == old(self)@,
    {
        if !self.state.pending_acks.contains_key(&sequence) {
            return false;
        }
        if self.config.ack_policy == AckPolicy::All {
            let covered = keys_up_to(&self.state.pending_acks, sequence);
            let ghost p0 = self.state.pending_acks@;
            let mut i: usize = 0;
            while i < covered.len()
                invariant
                    i <= covered@.len(),
                    self.config == old(self).config,
                    self.state.next_sequence == old(self).state.next_sequence,
                    self.state.delivered_count == old(self).state.delivered_count,
                    self.state.acked_count == old(self).state.acked_count,
                    self.state.acked_count < u64::MAX,
                    p0 == old(self).state.pending_acks@,
                    forall|k: u64| #[trigger] covered@.contains(k) <==> (p0.contains_key(k) && k <= sequence),
                    forall|k: u64| #[trigger] self.state.pending_acks@.contains_key(k) <==>
                        (p0.contains_key(k) && !covered@.take(i as int).contains(k)),
                    forall|k: u64| #[trigger] self.state.pending_acks@.contains_key(k) ==> self.state.pending_acks@[k] == p0[k],
                decreases covered@.len() - i,
            {
                let k = covered[i];
                let ghost before = self.state.pending_acks@;
                self.state.pending_acks.remove(&k);
                proof {
                    let t0 = covered@.take(i as int);
                    let t1 = covered@.take(i + 1);
                    assert(t1 =~= t0.push(k));
                    assert forall|y: u64| #[trigger] self.state.pending_acks@.contains_key(y) <==>
                        (p0.contains_key(y) && !t1.contains(y)) by {
                        if t1.contains(y) && !t0.contains(y) {
                            let j = choose|j: int| 0 <= j < t1.len() && t1[j] == y;
                            if j < t0.len() {
                                assert(t0[j] == y);
                            }
                        }
                        if t0.contains(y) {
                            let j = choose|j: int| 0 <= j < t0.len() && t0[j] == y;
                            assert(t1[j] == y);
                        }
                        if y == k {
                            assert(t1[i as int] == y);
                        }
                    }
                }
                i = i + 1;
            }
            proof {
                assert(covered@.take(covered@.len() as int) =~= covered@);
                assert(self.state.pending_acks@ =~= p0.restrict(Set::new(|k: u64| k > sequence)));
            }
        } else {
            self.state.pending_acks.remove(&sequence);
        }
        let n = self.state.pending_acks.len();
        self.state.pending_ack_count = n as u64;
        self.state.acked_count = self.state.acked_count + 1;
        true
    }

    /// Whether as many deliveries await acknowledgement as the limit allows.
    pub fn is_backpressured(&self) -> (r: bool)
        ensures
            r == backpressured(self@),
    {
        self.config.max_ack_pending > 0 && self.state.pending_ack_count >= self.config.max_ack_pending
    }

    /// The next sequence number to deliver.
    pub fn next_sequence(&self) -> (r: u64)
        ensures
            r == self@.state.next_sequence,
    {
        self.state.next_sequence
    }
}

/// The key a consumer is filed under: its stream, a colon, its name.
pub open spec fn key_of(stream: Seq<char>, name: Seq<char>) -> Seq<char> {
    stream + seq![':'] + name
}

/// The key for consumer `name` on `stream`.
fn consumer_key(stream: &str, name: &str) -> (r: String)
    ensures
        r@ == key_of(stream@, name@),
{
    let head = concat_text(stream, ":");
    proof {
        reveal_strlit(":");
    }
    concat_text(head.as_str(), name)
}

/// The consumer a fresh `Consumer::new(config, last)` holds.
pub open spec fn new_consumer_view(config: ConsumerConfig, stream_last_seq: u64) -> ConsumerView {
    ConsumerView {
        durable_name: config.durable_name@,
        stream: config.stream@,
        filter_subject: opt_text(config.filter_subject),
        deliver_policy: config.deliver_policy,
        ack_policy: config.ack_policy,
        max_ack_pending: config.max_ack_pending,
        state: fresh_state(start_sequence(config.deliver_policy, stream_last_seq) as u64),
    }
}

/// Consumer number `i` of `v` is filed under `key`.
pub open spec fn filed(v: Seq<(Seq<char>, ConsumerView)>, key: Seq<char>, i: int) -> bool {
    0 <= i < v.len() && v[i].0 == key
}

/// Some consumer of `v` is filed under `key`.
pub open spec fn has_consumer(v: Seq<(Seq<char>, ConsumerView)>, key: Seq<char>) -> bool {
    exists|i: int| filed(v, key, i)
}

/// The streams of a manager and its consumers under their keys.
pub struct ManagerView {
    pub streams: Seq<StreamView>,
    pub consumers: Seq<(Seq<char>, ConsumerView)>,
}

/// Durable consumers of the streams of a store, filed by stream and name.
pub struct ConsumerManager {
    store: MemoryStore,
    consumers: Vec<(String, Consumer)>,
}

impl View for ConsumerManager {
    type V = ManagerView;

    closed spec fn view(&self) -> ManagerView {
        ManagerView {
            streams: self.store@,
            consumers: self.consumers@.map_values(|p: (String, Consumer)| (p.0@, p.1@)),
        }
    }
}

impl ConsumerManager {
    /// The store is consistent and no two consumers share a key.
    pub closed spec fn wf(&self) -> bool {
        &&& self.store.wf()
        &&& forall|i: int, j: int|
            0 <= i < self.consumers@.len() && 0 <= j < self.consumers@.len() && i != j
                ==> (#[trigger] self.consumers@[i]).0@ != (#[trigger] self.consumers@[j]).0@
    }

    /// Keys are distinct, over the view.
    proof fn lemma_keys(&self)
        requires
            self.wf(),
        ensures
            forall|i: int, j: int| filed(self@.consumers, self@.consumers[i].0, j) && 0 <= i < self@.consumers.len() ==> i == j,
    {
        assert forall|i: int, j: int| filed(self@.consumers, self@.consumers[i].0, j) && 0 <= i < self@.consumers.len() implies i == j by {
            if i != j {
                assert(self.consumers@[i].0@ != self.consumers@[j].0@);
            }
        }
    }

    /// A manager of no consumers over `store`.
    pub fn new(store: MemoryStore) -> (r: ConsumerManager)
        requires
            store.wf(),
        ensures
            r.wf(),
            r@.streams == store@,
            r@.consumers == Seq::<(Seq<char>, ConsumerView)>::empty(),
    {
        let r = ConsumerManager { store, consumers: Vec::new() };
        assert(r@.consumers =~= Seq::<(Seq<char>, ConsumerView)>::empty());
        r
    }

    /// The store read.
    pub fn store(&self) -> (r: &MemoryStore)
        requires
            self.wf(),
        ensures
            r.wf(),
            r@ == self@.streams,
    {
        &self.store
    }

    /// The store, to change; the consumers stay as they are.
    pub fn store_mut(&mut self) -> (r: &mut MemoryStore)
        requires
            old(self).wf(),
        ensures
            r.wf(),
            r@ == old(self)@.streams,
            final(self)@ == (ManagerView { streams: final(r)@, consumers: old(self)@.consumers }),
            final(r).wf() ==> final(self).wf(),
    {
        &mut self.store
    }

    /// Whether every consumer can count `n` more acknowledgements.
    pub fn ack_room(&self, n: usize) -> (r: bool)
        ensures
            r == forall|j: int| 0 <= j < self@.consumers.len() ==> (#[trigger] self@.consumers[j]).1.state.acked_count + n < u64::MAX,
    {
        let mut i: usize = 0;
        while i < self.consumers.len()
            invariant
                i <= self.consumers@.len(),
                forall|j: int| 0 <= j < i ==> (#[trigger] self@.consumers[j]).1.state.acked_count + n < u64::MAX,
            decreases self.consumers@.len() - i,
        {
            assert(self@.consumers[i as int].1 == self.consumers@[i as int].1@);
            let acked = self.consumers[i].1.state().acked_count;
            if (n as u64) >= u64::MAX - acked {
                return false;
            }
            i = i + 1;
        }
        true
    }

    /// The index of the consumer filed under `key`.
    fn find(&self, key: &str) -> (r: Option<usize>)
        ensures
            match r {
                Some(i) => filed(self@.consumers, key@, i as int) && i < self.consumers@.len(),
                None => !has_consumer(self@.consumers, key@),
            },
    {
        let mut i: usize = 0;
        while i < self.consumers.len()
            invariant
                i <= self.consumers@.len(),
                forall|j: int| 0 <= j < i ==> self@.consumers[j].0 != key@,
            decreases self.consumers@.len() - i,
        {
            if str_eq(self.consumers[i].0.as_str(), key) {
                return Some(i);
            }
            i = i + 1;
        }
        None
    }

    /// Adds a consumer with settings `config`, starting where its policy
    /// says in its stream; an error where the stream does not exist or a
    /// consumer of that name on that stream does.
    pub fn create_consumer(&mut self, config: ConsumerConfig) -> (r: Result<(), StoreError>)
        requires
            old(self).wf(),
            forall|i: int| named(old(self)@.streams, config.stream@, i) ==>
                (config.deliver_policy == DeliverPolicy::New ==> (#[trigger] old(self)@.streams[i]).state.last_seq < u64::MAX),
        ensures
            final(self).wf(),
            !has_stream(old(self)@.streams, config.stream@) ==> {
                &&& r matches Err(StoreError::StreamNotFound(n)) && n@ == config.stream@
                &&& final(self)@ == old(self)@
            },
            has_stream(old(self)@.streams, config.stream@)
                && has_consumer(old(self)@.consumers, key_of(config.stream@, config.durable_name@)) ==> {
                &&& r matches Err(StoreError::StreamAlreadyExists(m))
                    && m@ == "consumer "@ + config.durable_name@ + " on stream "@ + config.stream@
                &&& final(self)@ == old(self)@
            },
            forall|i: int| named(old(self)@.streams, config.stream@, i)
                && !has_consumer(old(self)@.consumers, key_of(config.stream@, config.durable_name@)) ==> {
                &&& r is Ok
                &&& final(self)@ == (ManagerView {
                    streams: old(self)@.streams,
                    consumers: old(self)@.consumers.push((
                        key_of(config.stream@, config.durable_name@),
                        new_consumer_view(config, (#[trigger] old(self)@.streams[i]).state.last_seq),
                    )),
                })
            },
    {
        proof {
            self.store.lemma_wf();
        }
        let info = match self.store.stream_info(config.stream.as_str()) {
            Ok(info) => info,
            Err(e) => return Err(e),
        };
        let key = consumer_key(config.stream.as_str(), config.durable_name.as_str());
        if let Some(_) = self.find(key.as_str()) {
            let m1 = concat_text("consumer ", config.durable_name.as_str());
            let m2 = concat_text(m1.as_str(), " on stream ");
            let m3 = concat_text(m2.as_str(), config.stream.as_str());
            return Err(StoreError::StreamAlreadyExists(m3));
        }
        let ghost cfg = config;
        let consumer = Consumer::new(config, info.state.last_seq);
        let ghost old_consumers = self.consumers@;
        self.consumers.push((key, consumer));
        proof {
            assert(self@.consumers =~= old(self)@.consumers.push((key_of(cfg.stream@, cfg.durable_name@), consumer@)));
            assert forall|a: int, b: int|
                0 <= a < self.consumers@.len() && 0 <= b < self.consumers@.len() && a != b
                implies (#[trigger] self.consumers@[a]).0@ != (#[trigger] self.consumers@[b]).0@ by {
                if a < old_consumers.len() && b < old_consumers.len() {
                    assert(self.consumers@[a] == old_consumers[a]);
                    assert(self.consumers@[b] == old_consumers[b]);
                } else if a < old_consumers.len() {
                    assert(self@.consumers[a] == old(self)@.consumers[a]);
                    assert(!filed(old(self)@.consumers, key@, a));
                } else {
                    assert(self@.consumers[b] == old(self)@.consumers[b]);
                    assert(!filed(old(self)@.consumers, key@, b));
                }
            }
        }
        Ok(())
    }

    /// Removes consumer `name` of `stream`, if there is one.
    pub fn delete_consumer(&mut self, stream: &str, name: &str) -> (r: Result<(), StoreError>)
        requires
            old(self).wf(),
        ensures
            final(self).wf(),
            r is Ok,
            final(self)@.streams == old(self)@.streams,
            forall|j: int| filed(old(self)@.consumers, key_of(stream@, name@), j)
                ==> final(self)@.consumers == old(self)@.consumers.remove(j),
            !has_consumer(old(self)@.consumers, key_of(stream@, name@)) ==> final(self)@ == old(self)@,
    {
        proof {
            self.lemma_keys();
        }
        let key = consumer_key(stream, name);
        match self.find(key.as_str()) {
            Some(j) => {
                let ghost old_consumers = self.consumers@;
                let _gone = self.consumers.remove(j);
                proof {
                    assert(self@.consumers =~= old(self)@.consumers.remove(j as int));
                    assert forall|a: int, b: int|
                        0 <= a < self.consumers@.len() && 0 <= b < self.consumers@.len() && a != b
                        implies (#[trigger] self.consumers@[a]).0@ != (#[trigger] self.consumers@[b]).0@ by {
                        let oa = if a < j { a } else { a + 1 };
                        let ob = if b < j { b } else { b + 1 };
                        assert(self.consumers@[a] == old_consumers[oa]);
                        assert(self.consumers@[b] == old_consumers[ob]);
                    }
                }
                Ok(())
            },
            None => Ok(()),
        }
    }

    /// Whether consumer `name` of `stream` exists: an error where it does
    /// not.
    pub fn get_consumer(&self, stream: &str, name: &str) -> (r: Result<(), StoreError>)
        ensures
            has_consumer(self@.consumers, key_of(stream@, name@)) ==> r is Ok,
            !has_consumer(self@.consumers, key_of(stream@, name@)) ==>
                (r matches Err(StoreError::StreamNotFound(m)) && m@ == "consumer "@ + name@ + " on stream "@ + stream@),
    {
        let key = consumer_key(stream, name);
        match self.find(key.as_str()) {
            Some(_) => Ok(()),
            None => {
                let m1 = concat_text("consumer ", name);
                let m2 = concat_text(m1.as_str(), " on stream ");
                let m3 = concat_text(m2.as_str(), stream);
                Err(StoreError::StreamNotFound(m3))
            },
        }
    }

    /// The next message for consumer `name` of `stream`, read at time
    /// `now` (see `next_in`): none while it is at its limit of pending
    /// deliveries, or where the stream holds no such message; otherwise a
    /// copy of that message, recorded as delivered. An error where there is
    /// no such consumer.
    pub fn next_for_consumer_at(&mut self, stream: &str, name: &str, now: u64) -> (r: Result<Option<StoredMessage>, StoreError>)
        requires
            old(self).wf(),
            forall|j: int| filed(old(self)@.consumers, key_of(stream@, name@), j) ==> {
                &&& (#[trigger] old(self)@.consumers[j]).1.state.delivered_count < u64::MAX
                &&& old(self)@.consumers[j].1.state.next_sequence < u64::MAX
            },
            forall|i: int| named(old(self)@.streams, stream@, i) ==> (#[trigger] old(self)@.streams[i]).state.last_seq < u64::MAX,
        ensures
            final(self).wf(),
            final(self)@.streams == old(self)@.streams,
            !has_consumer(old(self)@.consumers, key_of(stream@, name@)) ==> {
                &&& r matches Err(StoreError::StreamNotFound(m)) && m@ == "consumer "@ + name@
                &&& final(self)@ == old(self)@
            },
            forall|j: int| #[trigger] filed(old(self)@.consumers, key_of(stream@, name@), j) ==> {
                let c = old(self)@.consumers[j].1;
                if backpressured(c) {
                    r == Ok::<Option<StoredMessage>, StoreError>(None) && final(self)@ == old(self)@
                } else {
                    match next_in(old(self)@.streams, stream@, c.state.next_sequence, c.filter_subject) {
                        Some(m) => {
                            &&& r matches Ok(Some(msg)) && msg@ == m
                            &&& final(self)@.consumers == old(self)@.consumers.update(
                                j,
                                (key_of(stream@, name@), ConsumerView { state: delivered(c.state, m.sequence, now), ..c }),
                            )
                        },
                        None => r == Ok::<Option<StoredMessage>, StoreError>(None) && final(self)@ == old(self)@,
                    }
                }
            },
    {
        proof {
            self.lemma_keys();
            self.store.lemma_wf();
        }
        let key = consumer_key(stream, name);
        let j = match self.find(key.as_str()) {
            Some(j) => j,
            None => return Err(StoreError::StreamNotFound(concat_text("consumer ", name))),
        };
        assert(self@.consumers[j as int].1 == self.consumers@[j as int].1@);
        if self.consumers[j].1.is_backpressured() {
            return Ok(None);
        }
        let seq = self.consumers[j].1.next_sequence();
        let filter: Option<String> = match &self.consumers[j].1.config().filter_subject {
            Some(f) => Some(f.clone()),
            None => None,
        };
        proof {
            if has_stream(self@.streams, stream@) {
                let i0 = choose|i: int| named(self@.streams, stream@, i);
                assert(named(self@.streams, stream@, i0));
            }
        }
        let found: Option<StoredMessage> = match &filter {
            None => match self.store.read_message(stream, seq) {
                Ok(msg) => Some(msg),
                Err(_) => None,
            },
            Some(f) => match self.store.read_range(stream, seq, u64::MAX) {
                Ok(list) => match find_passing(&list, f.as_str()) {
                    Some(k) => {
                        proof {
                            let i0 = choose|i: int| named(self@.streams, stream@, i);
                            let v = self@.streams[i0];
                            assert(crate::stream::stream_ok(v));
                            assert(stored_views(list@)[k as int] == list@[k as int]@);
                            let st = if seq > v.state.first_seq { seq } else { v.state.first_seq };
                            assert(range_spec(v, seq, u64::MAX)[k as int] == v.messages[st - v.state.first_seq + k]);
                            assert(list@[k as int]@.sequence <= v.state.last_seq);
                        }
                        Some(list[k].clone())
                    },
                    None => None,
                },
                Err(_) => None,
            },
        };
        match found {
            Some(msg) => {
                let ghost old_consumers = self.consumers@;
                self.consumers[j].1.record_delivery_at(msg.sequence, now);
                proof {
                    assert(self@.consumers =~= old(self)@.consumers.update(
                        j as int,
                        (key@, ConsumerView { state: delivered(old(self)@.consumers[j as int].1.state, msg.sequence, now), ..old(self)@.consumers[j as int].1 }),
                    ));
                    assert forall|a: int, b: int|
                        0 <= a < self.consumers@.len() && 0 <= b < self.consumers@.len() && a != b
                        implies (#[trigger] self.consumers@[a]).0@ != (#[trigger] self.consumers@[b]).0@ by {
                        assert(old_consumers[a].0@ != old_consumers[b].0@);
                    }
                }
                Ok(Some(msg))
            },
            None => Ok(None),
        }
    }

    /// The next message for consumer `name` of `stream`, as
    /// `next_for_consumer_at`, with the delivery stamped by the clock.
    pub fn next_for_consumer(&mut self, stream: &str, name: &str) -> (r: Result<Option<StoredMessage>, StoreError>)
        requires
            old(self).wf(),
            forall|j: int| filed(old(self)@.consumers, key_of(stream@, name@), j) ==> {
                &&& (#[trigger] old(self)@.consumers[j]).1.state.delivered_count < u64::MAX
                &&& old(self)@.consumers[j].1.state.next_sequence < u64::MAX
            },
            forall|i: int| named(old(self)@.streams, stream@, i) ==> (#[trigger] old(self)@.streams[i]).state.last_seq < u64::MAX,
        ensures
            final(self).wf(),
            final(self)@.streams == old(self)@.streams,
            !has_consumer(old(self)@.consumers, key_of(stream@, name@)) ==> {
                &&& r matches Err(StoreError::StreamNotFound(m)) && m@ == "consumer "@ + name@
                &&& final(self)@ == old(self)@
            },
            forall|j: int| #[trigger] filed(old(self)@.consumers, key_of(stream@, name@), j) ==> {
                let c = old(self)@.consumers[j].1;
                if backpressured(c) {
                    r == Ok::<Option<StoredMessage>, StoreError>(None) && final(self)@ == old(self)@
                } else {
                    match next_in(old(self)@.streams, stream@, c.state.next_sequence, c.filter_subject) {
                        Some(m) => {
                            &&& r matches Ok(Some(msg)) && msg@ == m
                            &&& exists|now: u64| final(self)@.consumers == old(self)@.consumers.update(
                                j,
                                (key_of(stream@, name@), ConsumerView { state: #[trigger] delivered(c.state, m.sequence, now), ..c }),
                            )
                        },
                        None => r == Ok::<Option<StoredMessage>, StoreError>(None) && final(self)@ == old(self)@,
                    }
                }
            },
    {
        let now = now_millis();
        self.next_for_consumer_at(stream, name, now)
    }

    /// Acknowledges `sequence` for consumer `name` of `stream`: true where
    /// that consumer exists and awaited it; false, with nothing changed,
    /// otherwise.
    pub fn ack(&mut self, stream: &str, name: &str, sequence: u64) -> (r: bool)
        requires
            old(self).wf(),
            forall|j: int| filed(old(self)@.consumers, key_of(stream@, name@), j)
                ==> (#[trigger] old(self)@.consumers[j]).1.state.acked_count < u64::MAX,
        ensures
            final(self).wf(),
            final(self)@.streams == old(self)@.streams,
            !has_consumer(old(self)@.consumers, key_of(stream@, name@)) ==> !r && final(self)@ == old(self)@,
            forall|j: int| #[trigger] filed(old(self)@.consumers, key_of(stream@, name@), j) ==> {
                let c = old(self)@.consumers[j].1;
                &&& r == c.state.pending_acks.contains_key(sequence)
                &&& r ==> final(self)@.consumers == old(self)@.consumers.update(
                    j,
                    (key_of(stream@, name@), ConsumerView { state: acked(c.state, sequence, c.ack_policy), ..c }),
                )
                &&& !r ==> final(self)@ == old(self)@
            },
    {
        proof {
            self.lemma_keys();
        }
        let key = consumer_key(stream, name);
        match self.find(key.as_str()) {
            Some(j) => {
                let ghost old_consumers = self.consumers@;
                assert(self@.consumers[j as int].1 == self.consumers@[j as int].1@);
                let ok = self.consumers[j].1.ack(sequence);
                proof {
                    if ok {
                        assert(self@.consumers =~= old(self)@.consumers.update(
                            j as int,
                            (key@, ConsumerView { state: acked(old(self)@.consumers[j as int].1.state, sequence, old(self)@.consumers[j as int].1.ack_policy), ..old(self)@.consumers[j as int].1 }),
                        ));
                    } else {
                        assert(self@.consumers =~= old(self)@.consumers);
                    }
                    assert forall|a: int, b: int|
                        0 <= a < self.consumers@.len() && 0 <= b < self.consumers@.len() && a != b
                        implies (#[trigger] self.consumers@[a]).0@ != (#[trigger] self.consumers@[b]).0@ by {
                        assert(old_consumers[a].0@ != old_consumers[b].0@);
                    }
                }
                ok
            },
            None => false,
        }
    }
}

/// A delivery awaits acknowledgement; acknowledging it then succeeds and
/// leaves it no longer pending, so a second acknowledgement fails. The
/// other pending deliveries stay as they were before the delivery, except
/// that under `AckPolicy::All` those before it are covered too.
pub proof fn lemma_deliver_then_ack(s: ConsumerStateView, sequence: u64, now: u64, policy: AckPolicy)
    ensures
        delivered(s, sequence, now).pending_acks.contains_key(sequence),
        !acked(delivered(s, sequence, now), sequence, policy).pending_acks.contains_key(sequence),
        policy != AckPolicy::All ==> acked(delivered(s, sequence, now), sequence, policy).pending_acks == s.pending_acks.remove(sequence),
        policy == AckPolicy::All ==> acked(delivered(s, sequence, now), sequence, policy).pending_acks
            == s.pending_acks.restrict(Set::new(|k: u64| k > sequence)),
        delivered(s, sequence, now).pending_acks.len() <= u64::MAX
            ==> delivered(s, sequence, now).pending_ack_count == delivered(s, sequence, now).pending_acks.len(),
        delivered(s, sequence, now).next_sequence == sequence + 1 || sequence == u64::MAX,
{
    assert(s.pending_acks.insert(sequence, now).remove(sequence) =~= s.pending_acks.remove(sequence));
    assert(s.pending_acks.insert(sequence, now).restrict(Set::new(|k: u64| k > sequence))
        =~= s.pending_acks.restrict(Set::new(|k: u64| k > sequence)));
}

/// Whether a message on `subject` passes the filter pattern `filter`: the
/// filter parses as a pattern, the subject as a subject, and they match.
pub open spec fn passes_filter(filter: Seq<char>, subject: Seq<char>) -> bool {
    &&& valid_pattern(trim(filter))
    &&& valid_subject(trim(subject))
    &&& pattern_matches(parsed_pattern(filter).tokens, parsed_subject(subject).tokens)
}

/// The first of `msgs` whose subject passes the filter `filter`.
pub open spec fn first_passing(msgs: Seq<StoredView>, filter: Seq<char>) -> Option<StoredView>
    decreases msgs.len(),
{
    if msgs.len() == 0 {
        None
    } else if passes_filter(filter, msgs[0].subject) {
        Some(msgs[0])
    } else {
        first_passing(msgs.drop_first(), filter)
    }
}

/// The message a consumer with filter `filter` whose next sequence number is
/// `seq` gets from the stream named `name`: without a filter, the message
/// with that sequence number; with one, the first message from that
/// sequence number on whose subject passes the filter.
pub open spec fn next_in(v: Seq<StreamView>, name: Seq<char>, seq: u64, filter: Option<Seq<char>>) -> Option<StoredView> {
    match filter {
        None => read_in(v, name, seq),
        Some(f) => if has_stream(v, name) {
            first_passing(range_spec(v[choose|i: int| named(v, name, i)], seq, u64::MAX), f)
        } else {
            None
        },
    }
}

/// The message with sequence number `seq` in the stream named `name`, where
/// there is such a stream and it holds that message.
pub open spec fn read_in(v: Seq<StreamView>, name: Seq<char>, seq: u64) -> Option<StoredView> {
    if has_stream(v, name) {
        read_spec(v[choose|i: int| named(v, name, i)], seq)
    } else {
        None
    }
}

} // verus!
