//! A stream: a named, ordered log of stored messages with retention limits.
//!
//! Messages get consecutive sequence numbers from 1. After every append the
//! retention limits are applied, always by dropping the oldest messages: first
//! those older than the age limit, then as many as exceed the count limit,
//! then while the bytes exceed the byte limit (the newest message is never
//! dropped for bytes).

use vstd::prelude::*;

use crate::message::{HeaderMap, opt_headers_view, clone_opt_headers};

verus! {

/// A stream's retention limits; 0 means unlimited.
#[derive(Clone, Copy, Debug, PartialEq, Eq, Structural)]
pub struct StreamConfig {
    /// Most messages kept.
    pub max_msgs: u64,
    /// Most payload bytes kept.
    pub max_bytes: u64,
    /// Longest a message is kept, in seconds.
    pub max_age_secs: u64,
}

impl Default for StreamConfig {
    /// No limits.
    fn default() -> (r: Self)
        ensures
            r.max_msgs == 0,
            r.max_bytes == 0,
            r.max_age_secs == 0,
    {
        StreamConfig { max_msgs: 0, max_bytes: 0, max_age_secs: 0 }
    }
}

impl StreamConfig {
    /// The same limits with at most `n` messages.
    pub fn with_max_msgs(self, n: u64) -> (r: Self)
        ensures
            r == (StreamConfig { max_msgs: n, ..self }),
    {
        let mut c = self;
        c.max_msgs = n;
        c
    }

    /// The same limits with at most `n` payload bytes.
    pub fn with_max_bytes(self, n: u64) -> (r: Self)
        ensures
            r == (StreamConfig { max_bytes: n, ..self }),
    {
        let mut c = self;
        c.max_bytes = n;
        c
    }

    /// The same limits with messages kept at most `secs` seconds.
    pub fn with_max_age_secs(self, secs: u64) -> (r: Self)
        ensures
            r == (StreamConfig { max_age_secs: secs, ..self }),
    {
        let mut c = self;
        c.max_age_secs = secs;
        c
    }
}

/// A stream's counters.
#[derive(Clone, Copy, Debug, PartialEq, Eq, Structural)]
pub struct StreamState {
    /// Messages held.
    pub messages: u64,
    /// Payload bytes held.
    pub bytes: u64,
    /// Sequence number of the oldest message held.
    pub first_seq: u64,
    /// Sequence number of the last message appended.
    pub last_seq: u64,
}

impl Default for StreamState {
    /// All counters 0.
    fn default() -> (r: Self)
        ensures
            r == (StreamState { messages: 0, bytes: 0, first_seq: 0, last_seq: 0 }),
    {
        StreamState { messages: 0, bytes: 0, first_seq: 0, last_seq: 0 }
    }
}

/// A message held by a stream.
pub struct StoredMessage {
    /// Sequence number, from 1.
    pub sequence: u64,
    /// When it was stored, in milliseconds since the Unix epoch.
    pub timestamp: u64,
    pub subject: String,
    pub reply_to: Option<String>,
    pub payload: Vec<u8>,
    pub headers: Option<HeaderMap>,
}

/// What a stored message holds.
pub struct StoredView {
    pub sequence: u64,
    pub timestamp: u64,
    pub subject: Seq<char>,
    pub reply_to: Option<Seq<char>>,
    pub payload: Seq<u8>,
    pub headers: Option<Seq<(Seq<char>, Seq<char>)>>,
}

/// The text of an optional string.
pub open spec fn opt_text(o: Option<String>) -> Option<Seq<char>> {
    match o {
        Some(s) => Some(s@),
        None => None,
    }
}

/// A copy of an optional string.
pub fn clone_opt_text(o: &Option<String>) -> (r: Option<String>)
    ensures
        opt_text(r) == opt_text(*o),
{
    match o {
        Some(s) => Some(s.clone()),
        None => None,
    }
}

impl View for StoredMessage {
    type V = StoredView;

    open spec fn view(&self) -> StoredView {
        StoredView {
            sequence: self.sequence,
            timestamp: self.timestamp,
            subject: self.subject@,
            reply_to: opt_text(self.reply_to),
            payload: self.payload@,
            headers: opt_headers_view(self.headers),
        }
    }
}

impl Clone for StoredMessage {
    fn clone(&self) -> (r: Self)
        ensures
            r@ == self@,
    {
        StoredMessage {
            sequence: self.sequence,
            timestamp: self.timestamp,
            subject: self.subject.clone(),
            reply_to: clone_opt_text(&self.reply_to),
            payload: self.payload.clone(),
            headers: clone_opt_headers(&self.headers),
        }
    }
}

/// A stream's name, limits and counters.
pub struct StreamInfo {
    pub name: String,
    pub config: StreamConfig,
    pub state: StreamState,
}

/// What a stream holds.
pub struct StreamView {
    pub name: Seq<char>,
    pub config: StreamConfig,
    pub state: StreamState,
    pub messages: Seq<StoredView>,
}

/// The payload bytes of `s` together.
pub open spec fn payload_total(s: Seq<StoredView>) -> nat
    decreases s.len(),
{
    if s.len() == 0 {
        0
    } else {
        s[0].payload.len() + payload_total(s.skip(1))
    }
}

/// The counters agree with the messages, whose sequence numbers run from
/// `first_seq` up to `last_seq` without a gap.
pub open spec fn stream_ok(v: StreamView) -> bool {
    &&& v.state.messages == v.messages.len()
    &&& v.state.bytes == payload_total(v.messages)
    &&& v.state.first_seq >= 1
    &&& v.state.first_seq + v.messages.len() == v.state.last_seq + 1
    &&& forall|i: int| 0 <= i < v.messages.len() ==> (#[trigger] v.messages[i]).sequence == v.state.first_seq + i
}

/// `now` less the age limit, in milliseconds, and 0 where that would be
/// below 0.
pub open spec fn age_cutoff(config: StreamConfig, now: u64) -> int {
    let age_ms = config.max_age_secs * 1000;
    if age_ms >= now { 0 } else { now - age_ms }
}

/// How many leading messages are older than `cutoff`.
pub open spec fn age_drop(s: Seq<StoredView>, cutoff: int) -> nat
    decreases s.len(),
{
    if s.len() > 0 && s[0].timestamp < cutoff {
        1 + age_drop(s.skip(1), cutoff)
    } else {
        0
    }
}

/// How many of `len` messages exceed the count limit.
pub open spec fn count_drop(len: nat, max_msgs: u64) -> nat {
    if max_msgs > 0 && len > max_msgs { (len - max_msgs) as nat } else { 0 }
}

/// How many leading messages go while the bytes exceed the byte limit and
/// more than one message is left.
pub open spec fn bytes_drop(s: Seq<StoredView>, max_bytes: u64) -> nat
    decreases s.len(),
{
    if max_bytes > 0 && s.len() > 1 && payload_total(s) > max_bytes {
        1 + bytes_drop(s.skip(1), max_bytes)
    } else {
        0
    }
}

/// The messages kept of `s` at time `now`: by age, then count, then bytes.
pub open spec fn retained(s: Seq<StoredView>, config: StreamConfig, now: u64) -> Seq<StoredView> {
    let s1 = if config.max_age_secs > 0 { s.skip(age_drop(s, age_cutoff(config, now)) as int) } else { s };
    let s2 = s1.skip(count_drop(s1.len(), config.max_msgs) as int);
    s2.skip(bytes_drop(s2, config.max_bytes) as int)
}

/// The stream after appending `m` and applying the limits at time `now`.
pub open spec fn after_store(v: StreamView, m: StoredView, now: u64) -> StreamView {
    let all = v.messages.push(m);
    let kept = retained(all, v.config, now);
    StreamView {
        name: v.name,
        config: v.config,
        state: StreamState {
            messages: kept.len() as u64,
            bytes: payload_total(kept) as u64,
            first_seq: (v.state.last_seq + 2 - kept.len()) as u64,
            last_seq: (v.state.last_seq + 1) as u64,
        },
        messages: kept,
    }
}

/// The message with sequence number `seq`, where the stream holds it.
pub open spec fn read_spec(v: StreamView, seq: u64) -> Option<StoredView> {
    if v.state.first_seq <= seq <= v.state.last_seq && seq - v.state.first_seq < v.messages.len() {
        Some(v.messages[seq - v.state.first_seq])
    } else {
        None
    }
}

/// The messages with sequence numbers from `start` to `end`, both included,
/// that the stream holds, oldest first.
pub open spec fn range_spec(v: StreamView, start: u64, end: u64) -> Seq<StoredView> {
    let s = if start > v.state.first_seq { start } else { v.state.first_seq };
    let e = if end < v.state.last_seq { end } else { v.state.last_seq };
    if s > e {
        Seq::empty()
    } else {
        v.messages.subrange(s - v.state.first_seq, e - v.state.first_seq + 1)
    }
}

/// The messages' views.
pub open spec fn stored_views(v: Seq<StoredMessage>) -> Seq<StoredView> {
    v.map_values(|m: StoredMessage| m@)
}

/// A named, ordered log of messages with retention limits.
pub struct Stream {
    name: String,
    config: StreamConfig,
    state: StreamState,
    messages: Vec<StoredMessage>,
}

impl View for Stream {
    type V = StreamView;

    closed spec fn view(&self) -> StreamView {
        StreamView {
            name: self.name@,
            config: self.config,
            state: self.state,
            messages: stored_views(self.messages@),
        }
    }
}

/// The view of a message built from its parts.
pub open spec fn stored_view_of(
    sequence: u64,
    timestamp: u64,
    subject: Seq<char>,
    reply_to: Option<Seq<char>>,
    payload: Seq<u8>,
    headers: Option<Seq<(Seq<char>, Seq<char>)>>,
) -> StoredView {
    StoredView { sequence, timestamp, subject, reply_to, payload, headers }
}

/// `SystemTime::now()` as milliseconds since the Unix epoch, or 0 for a
/// clock set before the epoch. Nothing is promised of the value: it is the
/// machine's clock.
#[verifier::external_body]
pub(crate) fn now_millis() -> u64 {
    match std::time::SystemTime::now().duration_since(std::time::UNIX_EPOCH) {
        Ok(d) => d.as_millis() as u64,
        Err(_) => 0,
    }
}

impl Stream {
    /// The counters and messages agree (see `stream_ok`).
    pub open spec fn wf(&self) -> bool {
        stream_ok(self@)
    }

    /// An empty stream: no messages, first sequence 1, last 0.
    pub fn new(name: String, config: StreamConfig) -> (r: Stream)
        ensures
            r.wf(),
            r@.name == name@,
            r@.config == config,
            r@.state == (StreamState { messages: 0, bytes: 0, first_seq: 1, last_seq: 0 }),
            r@.messages == Seq::<StoredView>::empty(),
    {
        let r = Stream {
            name,
            config,
            state: StreamState { messages: 0, bytes: 0, first_seq: 1, last_seq: 0 },
            messages: Vec::new(),
        };
        assert(r@.messages =~= Seq::<StoredView>::empty());
        r
    }

    /// The stream's name.
    pub fn name(&self) -> (r: &str)
        ensures
            r@ == self@.name,
    {
        self.name.as_str()
    }

    /// The stream's limits.
    pub fn config(&self) -> (r: &StreamConfig)
        ensures
            *r == self@.config,
    {
        &self.config
    }

    /// The stream's counters.
    pub fn state(&self) -> (r: &StreamState)
        ensures
            *r == self@.state,
    {
        &self.state
    }

    /// The stream's name, limits and counters.
    pub fn info(&self) -> (r: StreamInfo)
        ensures
            r.name@ == self@.name,
            r.config == self@.config,
            r.state == self@.state,
    {
        StreamInfo { name: self.name.clone(), config: self.config, state: self.state }
    }

    /// The message with sequence number `sequence`, if the stream holds it.
    pub fn read(&self, sequence: u64) -> (r: Option<&StoredMessage>)
        requires
            self.wf(),
        ensures
            match r {
                Some(m) => read_spec(self@, sequence) == Some(m@),
                None => read_spec(self@, sequence) is None,
            },
    {
        if sequence < self.state.first_seq || sequence > self.state.last_seq {
            return None;
        }
        let idx = (sequence - self.state.first_seq) as usize;
        if idx < self.messages.len() {
            Some(&self.messages[idx])
        } else {
            None
        }
    }

    /// The messages with sequence numbers from `start` to `end`, both
    /// included, that the stream holds, oldest first.
    pub fn read_range(&self, start: u64, end: u64) -> (r: Vec<&StoredMessage>)
        requires
            self.wf(),
        ensures
            r@.map_values(|m: &StoredMessage| m@) == range_spec(self@, start, end),
    {
        let s = if start > self.state.first_seq { start } else { self.state.first_seq };
        let e = if end < self.state.last_seq { end } else { self.state.last_seq };
        let mut out: Vec<&StoredMessage> = Vec::new();
        if s > e {
            assert(out@.map_values(|m: &StoredMessage| m@) =~= range_spec(self@, start, end));
            return out;
        }
        let n = self.messages.len();
        assert(e - self.state.first_seq < n);
        let start_idx = (s - self.state.first_seq) as usize;
        let end_idx = (e - self.state.first_seq) as usize;
        let mut i = start_idx;
        while i <= end_idx
            invariant
                self.wf(),
                start_idx <= i <= end_idx + 1,
                end_idx < n,
                n == self.messages@.len(),
                out@.len() == i - start_idx,
                forall|j: int| 0 <= j < out@.len() ==> (#[trigger] out@[j])@ == self.messages@[start_idx + j]@,
            decreases end_idx + 1 - i,
        {
            out.push(&self.messages[i]);
            i = i + 1;
        }
        proof {
            let want = range_spec(self@, start, end);
            assert(want =~= stored_views(self.messages@).subrange(start_idx as int, end_idx + 1));
            assert(out@.map_values(|m: &StoredMessage| m@) =~= want);
        }
        out
    }

    /// Drops the oldest message.
    fn remove_front(&mut self)
        requires
            old(self).wf(),
            old(self)@.messages.len() > 0,
            old(self)@.state.last_seq < u64::MAX,
        ensures
            final(self).wf(),
            final(self)@ == (StreamView {
                state: StreamState {
                    messages: (old(self)@.messages.len() - 1) as u64,
                    bytes: payload_total(old(self)@.messages.skip(1)) as u64,
                    first_seq: (old(self)@.state.first_seq + 1) as u64,
                    last_seq: old(self)@.state.last_seq,
                },
                messages: old(self)@.messages.skip(1),
                ..old(self)@
            }),
    {
        proof {
            lemma_ok_after_drop(self@, 1);
        }
        let msg = self.messages.remove(0);
        assert(stored_views(self.messages@) =~= old(self)@.messages.skip(1));
        self.state.bytes = self.state.bytes - msg.payload.len() as u64;
        self.state.messages = self.state.messages - 1;
        self.state.first_seq = self.state.first_seq + 1;
    }

    /// Applies the limits at time `now`, dropping the oldest messages.
    fn apply_retention(&mut self, now: u64)
        requires
            old(self).wf(),
            old(self)@.state.last_seq < u64::MAX,
        ensures
            final(self).wf(),
            final(self)@.name == old(self)@.name,
            final(self)@.config == old(self)@.config,
            final(self)@.state.last_seq == old(self)@.state.last_seq,
            final(self)@.messages == retained(old(self)@.messages, old(self)@.config, now),
    {
        let ghost v0 = self@;
        let ghost s0 = self@.messages;
        if self.config.max_age_secs > 0 {
            let cutoff: u64 = match self.config.max_age_secs.checked_mul(1000) {
                Some(age_ms) => now.saturating_sub(age_ms),
                None => 0,
            };
            assert(cutoff == age_cutoff(v0.config, now));
            let ghost mut k: int = 0;
            while self.messages.len() > 0 && self.messages[0].timestamp < cutoff
                invariant
                    self.wf(),
                    self@.name == v0.name,
                    self@.config == v0.config,
                    self@.state.last_seq == v0.state.last_seq,
                    v0.state.last_seq < u64::MAX,
                    cutoff == age_cutoff(v0.config, now),
                    0 <= k <= s0.len(),
                    self@.messages == s0.skip(k),
                    age_drop(s0, cutoff as int) == k + age_drop(self@.messages, cutoff as int),
                decreases self@.messages.len(),
            {
                assert(self@.messages[0] == self.messages@[0]@);
                self.remove_front();
                proof {
                    lemma_skip_skip(s0, k, 1);
                    k = k + 1;
                }
            }
            assert(self@.messages == s0.skip(age_drop(s0, age_cutoff(v0.config, now)) as int));
        }
        let ghost s1 = self@.messages;
        assert(s1 == (if v0.config.max_age_secs > 0 { s0.skip(age_drop(s0, age_cutoff(v0.config, now)) as int) } else { s0 })) by {
            if v0.config.max_age_secs == 0 {
                assert(s1 =~= s0);
            }
        }
        if self.config.max_msgs > 0 {
            let ghost mut j: int = 0;
            while self.messages.len() as u64 > self.config.max_msgs
                invariant
                    self.wf(),
                    self@.name == v0.name,
                    self@.config == v0.config,
                    self@.state.last_seq == v0.state.last_seq,
                    v0.state.last_seq < u64::MAX,
                    v0.config.max_msgs > 0,
                    0 <= j <= s1.len(),
                    self@.messages == s1.skip(j),
                    j > 0 ==> self@.messages.len() >= v0.config.max_msgs,
                decreases self@.messages.len(),
            {
                self.remove_front();
                proof {
                    lemma_skip_skip(s1, j, 1);
                    j = j + 1;
                }
            }
            assert(j == count_drop(s1.len(), v0.config.max_msgs));
        } else {
            assert(s1.skip(0) =~= s1);
        }
        let ghost s2 = self@.messages;
        assert(s2 == s1.skip(count_drop(s1.len(), v0.config.max_msgs) as int));
        if self.config.max_bytes > 0 {
            let ghost mut k: int = 0;
            while self.state.bytes > self.config.max_bytes && self.messages.len() > 1
                invariant
                    self.wf(),
                    self@.name == v0.name,
                    self@.config == v0.config,
                    self@.state.last_seq == v0.state.last_seq,
                    v0.state.last_seq < u64::MAX,
                    v0.config.max_bytes > 0,
                    0 <= k <= s2.len(),
                    self@.messages == s2.skip(k),
                    bytes_drop(s2, v0.config.max_bytes) == k + bytes_drop(self@.messages, v0.config.max_bytes),
                decreases self@.messages.len(),
            {
                self.remove_front();
                proof {
                    lemma_skip_skip(s2, k, 1);
                    k = k + 1;
                }
            }
        } else {
            assert(s2.skip(0) =~= s2);
        }
    }

    /// Appends a message stamped `timestamp` and applies the limits at time
    /// `now`. Returns the message's sequence number: one past the last.
    pub fn store_at(
        &mut self,
        subject: String,
        reply_to: Option<String>,
        payload: Vec<u8>,
        headers: Option<HeaderMap>,
        timestamp: u64,
        now: u64,
    ) -> (r: u64)
        requires
            old(self).wf(),
            old(self)@.state.last_seq < u64::MAX - 1,
            old(self)@.state.bytes + payload@.len() <= u64::MAX,
        ensures
            r == old(self)@.state.last_seq + 1,
            final(self).wf(),
            final(self)@ == after_store(
                old(self)@,
                stored_view_of(r, timestamp, subject@, opt_text(reply_to), payload@, opt_headers_view(headers)),
                now,
            ),
    {
        let ghost v0 = self@;
        let seq = self.state.last_seq + 1;
        let msg_bytes = payload.len() as u64;
        let msg = StoredMessage { sequence: seq, timestamp, subject, reply_to, payload, headers };
        let ghost mv = msg@;
        self.messages.push(msg);
        proof {
            assert(stored_views(self.messages@) =~= v0.messages.push(mv));
            lemma_payload_total_push(v0.messages, mv);
        }
        self.state.last_seq = seq;
        self.state.messages = self.state.messages + 1;
        self.state.bytes = self.state.bytes + msg_bytes;
        assert(self.wf()) by {
            let ms = self@.messages;
            assert forall|i: int| 0 <= i < ms.len() implies (#[trigger] ms[i]).sequence == self@.state.first_seq + i by {
                if i < v0.messages.len() {
                    assert(ms[i] == v0.messages[i]);
                }
            }
        }
        self.apply_retention(now);
        seq
    }

    /// Appends a message stamped with the clock and applies the limits at
    /// the clock's time. Returns the message's sequence number: one past the
    /// last.
    pub fn store(
        &mut self,
        subject: String,
        reply_to: Option<String>,
        payload: Vec<u8>,
        headers: Option<HeaderMap>,
    ) -> (r: u64)
        requires
            old(self).wf(),
            old(self)@.state.last_seq < u64::MAX - 1,
            old(self)@.state.bytes + payload@.len() <= u64::MAX,
        ensures
            r == old(self)@.state.last_seq + 1,
            final(self).wf(),
            exists|timestamp: u64, now: u64| final(self)@ == after_store(
                old(self)@,
                stored_view_of(r, timestamp, subject@, opt_text(reply_to), payload@, opt_headers_view(headers)),
                now,
            ),
    {
        let timestamp = now_millis();
        let now = now_millis();
        self.store_at(subject, reply_to, payload, headers, timestamp, now)
    }
}

/// The stages of retention keep at least one message of a non-empty log
/// whose last message is not too old, and that message stays last.
proof fn lemma_retained_keeps_last(s: Seq<StoredView>, config: StreamConfig, now: u64)
    requires
        s.len() >= 1,
        config.max_age_secs == 0 || s.last().timestamp >= age_cutoff(config, now),
    ensures
        retained(s, config, now).len() >= 1,
        retained(s, config, now).last() == s.last(),
{
    let cutoff = age_cutoff(config, now);
    let m = s.last();
    let init = s.drop_last();
    assert(init.push(m) =~= s);
    let s1 = if config.max_age_secs > 0 { s.skip(age_drop(s, cutoff) as int) } else { s };
    if config.max_age_secs > 0 {
        lemma_age_drop_push(init, m, cutoff);
    }
    assert(s1.len() >= 1 && s1.last() == m);
    let s2 = s1.skip(count_drop(s1.len(), config.max_msgs) as int);
    assert(s2.len() >= 1 && s2.last() == m);
    lemma_bytes_drop_bound(s2, config.max_bytes);
    let s3 = s2.skip(bytes_drop(s2, config.max_bytes) as int);
    assert(s3.len() >= 1 && s3.last() == m);
}

/// A read of the sequence number that a store returned gives back the
/// message stored, unless the age limit already made it expire: the store
/// keeps the newest message whatever the count and byte limits.
pub proof fn lemma_read_after_store(v: StreamView, m: StoredView, now: u64)
    requires
        stream_ok(v),
        v.state.last_seq < u64::MAX - 1,
        m.sequence == v.state.last_seq + 1,
        v.config.max_age_secs == 0 || m.timestamp >= age_cutoff(v.config, now),
    ensures
        read_spec(after_store(v, m, now), (v.state.last_seq + 1) as u64) == Some(m),
{
    let all = v.messages.push(m);
    lemma_retained_keeps_last(all, v.config, now);
    lemma_retained_suffix(all, v.config, now);
}

/// After a store the stream is consistent, its last sequence number is the
/// one the store returned, it holds no more messages than the count limit,
/// and no more bytes than the byte limit unless it holds a single message.
/// What it holds is what it held with the new message appended, less some
/// of the oldest.
pub proof fn lemma_store_limits(v: StreamView, m: StoredView, now: u64)
    requires
        stream_ok(v),
        v.state.last_seq < u64::MAX - 1,
        v.state.bytes + m.payload.len() <= u64::MAX,
        m.sequence == v.state.last_seq + 1,
    ensures
        stream_ok(after_store(v, m, now)),
        after_store(v, m, now).state.last_seq == v.state.last_seq + 1,
        v.config.max_msgs > 0 ==> after_store(v, m, now).state.messages <= v.config.max_msgs,
        v.config.max_bytes > 0 ==> (after_store(v, m, now).state.bytes <= v.config.max_bytes
            || after_store(v, m, now).state.messages <= 1),
        exists|d: int| 0 <= d <= v.messages.len() + 1 && after_store(v, m, now).messages == v.messages.push(m).skip(d),
{
    let all = v.messages.push(m);
    let config = v.config;
    lemma_payload_total_push(v.messages, m);
    lemma_retained_suffix(all, config, now);
    let kept = retained(all, config, now);
    let d = all.len() - kept.len();
    assert(0 <= d <= v.messages.len() + 1 && kept == all.skip(d));
    lemma_payload_total_skip_le(all, d);
    let cutoff = age_cutoff(config, now);
    lemma_age_drop_bound(all, cutoff);
    let s1 = if config.max_age_secs > 0 { all.skip(age_drop(all, cutoff) as int) } else { all };
    let s2 = s1.skip(count_drop(s1.len(), config.max_msgs) as int);
    assert(config.max_msgs > 0 ==> s2.len() <= config.max_msgs);
    lemma_bytes_drop_bound(s2, config.max_bytes);
    assert forall|i: int| 0 <= i < kept.len() implies (#[trigger] kept[i]).sequence == (v.state.last_seq + 2 - kept.len()) + i by {
        assert(kept[i] == all[d + i]);
        if d + i < v.messages.len() {
            assert(all[d + i] == v.messages[d + i]);
        }
    }
}

/// The payload bytes of `s` and one more message.
proof fn lemma_payload_total_push(s: Seq<StoredView>, m: StoredView)
    ensures
        payload_total(s.push(m)) == payload_total(s) + m.payload.len(),
    decreases s.len(),
{
    if s.len() == 0 {
        assert(s.push(m).skip(1) =~= Seq::<StoredView>::empty());
        assert(s.push(m)[0] == m);
        assert(payload_total(s.push(m).skip(1)) == 0);
        assert(payload_total(s) == 0);
    } else {
        assert(s.push(m).skip(1) =~= s.skip(1).push(m));
        assert(s.push(m)[0] == s[0]);
        lemma_payload_total_push(s.skip(1), m);
    }
}

/// Dropping `a` and then `b` leading items drops `a + b`.
proof fn lemma_skip_skip<A>(s: Seq<A>, a: int, b: int)
    requires
        0 <= a,
        0 <= b,
        a + b <= s.len(),
    ensures
        s.skip(a).skip(b) == s.skip(a + b),
{
    assert(s.skip(a).skip(b) =~= s.skip(a + b));
}

/// The age drop never passes a message stamped no earlier than the cutoff.
proof fn lemma_age_drop_push(s: Seq<StoredView>, m: StoredView, cutoff: int)
    requires
        m.timestamp >= cutoff,
    ensures
        age_drop(s.push(m), cutoff) <= s.len(),
    decreases s.len(),
{
    if s.len() > 0 {
        assert(s.push(m)[0] == s[0]);
        assert(s.push(m).skip(1) =~= s.skip(1).push(m));
        lemma_age_drop_push(s.skip(1), m, cutoff);
    }
}

/// No more is dropped for bytes than leaves one message.
proof fn lemma_bytes_drop_bound(s: Seq<StoredView>, max_bytes: u64)
    ensures
        s.len() >= 1 ==> bytes_drop(s, max_bytes) < s.len(),
        bytes_drop(s, max_bytes) <= s.len(),
        max_bytes > 0 ==> (payload_total(s.skip(bytes_drop(s, max_bytes) as int)) <= max_bytes
            || s.skip(bytes_drop(s, max_bytes) as int).len() <= 1),
    decreases s.len(),
{
    if max_bytes > 0 && s.len() > 1 && payload_total(s) > max_bytes {
        lemma_bytes_drop_bound(s.skip(1), max_bytes);
        lemma_skip_skip(s, 1, bytes_drop(s.skip(1), max_bytes) as int);
    } else {
        assert(s.skip(0) =~= s);
    }
}

/// The age drop is at most the length.
proof fn lemma_age_drop_bound(s: Seq<StoredView>, cutoff: int)
    ensures
        age_drop(s, cutoff) <= s.len(),
        s.skip(age_drop(s, cutoff) as int).len() > 0 ==> s.skip(age_drop(s, cutoff) as int)[0].timestamp >= cutoff,
    decreases s.len(),
{
    if s.len() > 0 && s[0].timestamp < cutoff {
        lemma_age_drop_bound(s.skip(1), cutoff);
        lemma_skip_skip(s, 1, age_drop(s.skip(1), cutoff) as int);
    } else {
        assert(s.skip(0) =~= s);
    }
}

/// What is kept is what is left after dropping some oldest messages.
proof fn lemma_retained_suffix(s: Seq<StoredView>, config: StreamConfig, now: u64)
    ensures
        retained(s, config, now).len() <= s.len(),
        retained(s, config, now) == s.skip(s.len() - retained(s, config, now).len()),
{
    let cutoff = age_cutoff(config, now);
    lemma_age_drop_bound(s, cutoff);
    let k1: int = if config.max_age_secs > 0 { age_drop(s, cutoff) as int } else { 0 };
    let s1 = if config.max_age_secs > 0 { s.skip(age_drop(s, cutoff) as int) } else { s };
    assert(s1 =~= s.skip(k1));
    let k2 = count_drop(s1.len(), config.max_msgs) as int;
    let s2 = s1.skip(k2);
    lemma_skip_skip(s, k1, k2);
    lemma_bytes_drop_bound(s2, config.max_bytes);
    let k3 = bytes_drop(s2, config.max_bytes) as int;
    lemma_skip_skip(s, k1 + k2, k3);
}

/// Sequence numbers stay consecutive when the oldest messages go.
proof fn lemma_ok_after_drop(v: StreamView, k: int)
    requires
        stream_ok(v),
        0 <= k <= v.messages.len(),
        v.state.last_seq < u64::MAX,
    ensures
        stream_ok(StreamView {
            state: StreamState {
                messages: (v.messages.len() - k) as u64,
                bytes: payload_total(v.messages.skip(k)) as u64,
                first_seq: (v.state.first_seq + k) as u64,
                last_seq: v.state.last_seq,
            },
            messages: v.messages.skip(k),
            ..v
        }),
{
    lemma_payload_total_skip_le(v.messages, k);
}

/// The bytes of what is left after dropping leading messages are no more.
proof fn lemma_payload_total_skip_le(s: Seq<StoredView>, k: int)
    requires
        0 <= k <= s.len(),
    ensures
        payload_total(s.skip(k)) <= payload_total(s),
    decreases k,
{
    if k > 0 {
        lemma_skip_skip(s, 1, k - 1);
        lemma_payload_total_skip_le(s.skip(1), k - 1);
    } else {
        assert(s.skip(0) =~= s);
    }
}

} // verus!
