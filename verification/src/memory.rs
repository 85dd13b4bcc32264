//! An in-memory store of named streams.

use vstd::prelude::*;

use crate::error::StoreError;
use crate::message::{HeaderMap, opt_headers_view};
use crate::stream::{
    Stream, StreamConfig, StreamInfo, StreamState, StreamView, StoredMessage, StoredView,
    after_store, opt_text, range_spec, read_spec, stored_view_of, stored_views, now_millis,
};
use crate::text::str_eq;

verus! {

/// Stream number `i` of `v` is named `name`.
pub open spec fn named(v: Seq<StreamView>, name: Seq<char>, i: int) -> bool {
    0 <= i < v.len() && v[i].name == name
}

/// Some stream of `v` is named `name`.
pub open spec fn has_stream(v: Seq<StreamView>, name: Seq<char>) -> bool {
    exists|i: int| named(v, name, i)
}

/// A new, empty stream.
pub open spec fn empty_stream(name: Seq<char>, config: StreamConfig) -> StreamView {
    StreamView {
        name,
        config,
        state: StreamState { messages: 0, bytes: 0, first_seq: 1, last_seq: 0 },
        messages: Seq::empty(),
    }
}

/// The info of a stream view.
pub open spec fn info_matches(info: StreamInfo, v: StreamView) -> bool {
    info.name@ == v.name && info.config == v.config && info.state == v.state
}

/// The default limits: none.
pub open spec fn no_limits() -> StreamConfig {
    StreamConfig { max_msgs: 0, max_bytes: 0, max_age_secs: 0 }
}

/// Names stay distinct.
pub open spec fn names_unique(v: Seq<StreamView>) -> bool {
    forall|i: int, j: int| 0 <= i < v.len() && 0 <= j < v.len() && i != j ==> (#[trigger] v[i]).name != (#[trigger] v[j]).name
}

/// Once a stream is deleted, no stream of that name is left, so asking for
/// it fails; once one is created, it is there.
pub proof fn lemma_delete_then_missing(v: Seq<StreamView>, name: Seq<char>, i: int, config: StreamConfig)
    requires
        names_unique(v),
    ensures
        named(v, name, i) ==> !has_stream(v.remove(i), name),
        !has_stream(v, name) ==> has_stream(v.push(empty_stream(name, config)), name),
{
    if named(v, name, i) && has_stream(v.remove(i), name) {
        let j = choose|j: int| named(v.remove(i), name, j);
        let oj = if j < i { j } else { j + 1 };
        assert(v.remove(i)[j] == v[oj]);
    }
    if !has_stream(v, name) {
        assert(named(v.push(empty_stream(name, config)), name, v.len() as int));
    }
}

/// A message stored into a stream that did not exist (created without
/// limits) reads back under sequence number 1.
pub proof fn lemma_auto_created_read(name: Seq<char>, m: StoredView, now: u64)
    requires
        m.sequence == 1,
    ensures
        read_spec(after_store(empty_stream(name, no_limits()), m, now), 1) == Some(m),
{
    let v = empty_stream(name, no_limits());
    assert(crate::stream::stream_ok(v)) by {
        assert(crate::stream::payload_total(v.messages) == 0);
    }
    crate::stream::lemma_read_after_store(v, m, now);
}

/// Streams, each named once.
pub struct MemoryStore {
    streams: Vec<Stream>,
}

impl View for MemoryStore {
    type V = Seq<StreamView>;

    closed spec fn view(&self) -> Seq<StreamView> {
        self.streams@.map_values(|s: Stream| s@)
    }
}

impl MemoryStore {
    /// Every stream is consistent and no two share a name.
    pub closed spec fn wf(&self) -> bool {
        &&& forall|i: int| 0 <= i < self.streams@.len() ==> (#[trigger] self.streams@[i]).wf()
        &&& forall|i: int, j: int|
            0 <= i < self.streams@.len() && 0 <= j < self.streams@.len() && i != j
                ==> (#[trigger] self.streams@[i])@.name != (#[trigger] self.streams@[j])@.name
    }

    /// Facts that follow from `wf`, over the view.
    pub proof fn lemma_wf(&self)
        requires
            self.wf(),
        ensures
            forall|i: int| 0 <= i < self@.len() ==> crate::stream::stream_ok(#[trigger] self@[i]),
            forall|i: int, j: int| 0 <= i < self@.len() && 0 <= j < self@.len() && i != j
                ==> (#[trigger] self@[i]).name != (#[trigger] self@[j]).name,
    {
        assert forall|i: int| 0 <= i < self@.len() implies crate::stream::stream_ok(#[trigger] self@[i]) by {
            assert(self.streams@[i].wf());
        }
        assert forall|i: int, j: int| 0 <= i < self@.len() && 0 <= j < self@.len() && i != j
            implies (#[trigger] self@[i]).name != (#[trigger] self@[j]).name by {
            assert(self.streams@[i]@.name != self.streams@[j]@.name);
        }
    }

    /// An empty store.
    pub fn new() -> (r: MemoryStore)
        ensures
            r.wf(),
            r@ == Seq::<StreamView>::empty(),
    {
        let r = MemoryStore { streams: Vec::new() };
        assert(r@ =~= Seq::<StreamView>::empty());
        r
    }

    /// The index of the stream named `name`.
    fn position(&self, name: &str) -> (r: Option<usize>)
        requires
            self.wf(),
        ensures
            match r {
                Some(i) => named(self@, name@, i as int) && i < self.streams@.len(),
                None => !has_stream(self@, name@),
            },
    {
        let mut i: usize = 0;
        while i < self.streams.len()
            invariant
                i <= self.streams@.len(),
                forall|j: int| 0 <= j < i ==> self@[j].name != name@,
            decreases self.streams@.len() - i,
        {
            if str_eq(self.streams[i].name(), name) {
                return Some(i);
            }
            i = i + 1;
        }
        None
    }

    /// Creates an empty stream named `name` with limits `config`, and gives
    /// its info; an error where a stream of that name exists.
    pub fn create_stream(&mut self, name: &str, config: StreamConfig) -> (r: Result<StreamInfo, StoreError>)
        requires
            old(self).wf(),
        ensures
            final(self).wf(),
            has_stream(old(self)@, name@) ==> {
                &&& r matches Err(StoreError::StreamAlreadyExists(n)) && n@ == name@
                &&& final(self)@ == old(self)@
            },
            !has_stream(old(self)@, name@) ==> {
                &&& r matches Ok(info) && info_matches(info, empty_stream(name@, config))
                &&& final(self)@ == old(self)@.push(empty_stream(name@, config))
            },
    {
        match self.position(name) {
            Some(_) => Err(StoreError::StreamAlreadyExists(name.to_string())),
            None => {
                let stream = Stream::new(name.to_string(), config);
                let info = stream.info();
                let ghost old_streams = self.streams@;
                self.streams.push(stream);
                proof {
                    assert(self@ =~= old(self)@.push(empty_stream(name@, config)));
                    assert forall|i: int, j: int|
                        0 <= i < self.streams@.len() && 0 <= j < self.streams@.len() && i != j
                        implies (#[trigger] self.streams@[i])@.name != (#[trigger] self.streams@[j])@.name by {
                        if i < old_streams.len() && j < old_streams.len() {
                            assert(self.streams@[i] == old_streams[i]);
                            assert(self.streams@[j] == old_streams[j]);
                        } else if i < old_streams.len() {
                            assert(self@[i] == old(self)@[i]);
                            assert(!named(old(self)@, name@, i));
                        } else {
                            assert(self@[j] == old(self)@[j]);
                            assert(!named(old(self)@, name@, j));
                        }
                    }
                }
                Ok(info)
            },
        }
    }

    /// Deletes the stream named `name`, if there is one.
    pub fn delete_stream(&mut self, name: &str) -> (r: Result<(), StoreError>)
        requires
            old(self).wf(),
        ensures
            final(self).wf(),
            r is Ok,
            forall|i: int| named(old(self)@, name@, i) ==> final(self)@ == old(self)@.remove(i),
            !has_stream(old(self)@, name@) ==> final(self)@ == old(self)@,
    {
        match self.position(name) {
            Some(i) => {
                let ghost old_streams = self.streams@;
                proof {
                    self.lemma_wf();
                }
                let _gone = self.streams.remove(i);
                proof {
                    assert(self@ =~= old(self)@.remove(i as int));
                    assert forall|a: int, b: int|
                        0 <= a < self.streams@.len() && 0 <= b < self.streams@.len() && a != b
                        implies (#[trigger] self.streams@[a])@.name != (#[trigger] self.streams@[b])@.name by {
                        let oa = if a < i { a } else { a + 1 };
                        let ob = if b < i { b } else { b + 1 };
                        assert(self.streams@[a] == old_streams[oa]);
                        assert(self.streams@[b] == old_streams[ob]);
                    }
                    assert forall|a: int| 0 <= a < self.streams@.len() implies (#[trigger] self.streams@[a]).wf() by {
                        let oa = if a < i { a } else { a + 1 };
                        assert(self.streams@[a] == old_streams[oa]);
                    }
                }
                Ok(())
            },
            None => Ok(()),
        }
    }

    /// The info of the stream named `name`; an error where there is none.
    pub fn stream_info(&self, name: &str) -> (r: Result<StreamInfo, StoreError>)
        requires
            self.wf(),
        ensures
            match r {
                Ok(info) => exists|i: int| named(self@, name@, i) && info_matches(info, #[trigger] self@[i]),
                Err(e) => !has_stream(self@, name@) && (e matches StoreError::StreamNotFound(n) && n@ == name@),
            },
    {
        match self.position(name) {
            Some(i) => {
                let info = self.streams[i].info();
                assert(info_matches(info, self@[i as int]));
                Ok(info)
            },
            None => Err(StoreError::StreamNotFound(name.to_string())),
        }
    }

    /// The info of every stream, in the order they were created.
    pub fn list_streams(&self) -> (r: Vec<StreamInfo>)
        requires
            self.wf(),
        ensures
            r@.len() == self@.len(),
            forall|i: int| 0 <= i < r@.len() ==> info_matches(#[trigger] r@[i], self@[i]),
    {
        let mut out: Vec<StreamInfo> = Vec::new();
        let mut i: usize = 0;
        while i < self.streams.len()
            invariant
                i <= self.streams@.len(),
                out@.len() == i,
                forall|j: int| 0 <= j < i ==> info_matches(#[trigger] out@[j], self@[j]),
            decreases self.streams@.len() - i,
        {
            out.push(self.streams[i].info());
            i = i + 1;
        }
        out
    }

    /// Appends a message stamped `timestamp` to the stream named
    /// `stream_name`, first creating it without limits if there is none, and
    /// applies its limits at time `now`. Gives the message's sequence number.
    pub fn store_message_at(
        &mut self,
        stream_name: &str,
        subject: String,
        reply_to: Option<String>,
        payload: Vec<u8>,
        headers: Option<HeaderMap>,
        timestamp: u64,
        now: u64,
    ) -> (r: Result<u64, StoreError>)
        requires
            old(self).wf(),
            forall|i: int| named(old(self)@, stream_name@, i) ==> {
                &&& (#[trigger] old(self)@[i]).state.last_seq < u64::MAX - 1
                &&& old(self)@[i].state.bytes + payload@.len() <= u64::MAX
            },
        ensures
            final(self).wf(),
            forall|i: int| named(old(self)@, stream_name@, i) ==> {
                &&& r == Ok::<u64, StoreError>((old(self)@[i].state.last_seq + 1) as u64)
                &&& final(self)@ == old(self)@.update(i, after_store(
                    old(self)@[i],
                    stored_view_of((old(self)@[i].state.last_seq + 1) as u64, timestamp, subject@, opt_text(reply_to), payload@, opt_headers_view(headers)),
                    now,
                ))
            },
            !has_stream(old(self)@, stream_name@) ==> {
                &&& r == Ok::<u64, StoreError>(1)
                &&& final(self)@ == old(self)@.push(after_store(
                    empty_stream(stream_name@, no_limits()),
                    stored_view_of(1, timestamp, subject@, opt_text(reply_to), payload@, opt_headers_view(headers)),
                    now,
                ))
            },
    {
        proof {
            self.lemma_wf();
        }
        let ghost old_streams = self.streams@;
        let idx: usize = match self.position(stream_name) {
            Some(i) => i,
            None => {
                let stream = Stream::new(stream_name.to_string(), StreamConfig::default());
                self.streams.push(stream);
                proof {
                    assert forall|a: int, b: int|
                        0 <= a < self.streams@.len() && 0 <= b < self.streams@.len() && a != b
                        implies (#[trigger] self.streams@[a])@.name != (#[trigger] self.streams@[b])@.name by {
                        if a < old_streams.len() && b < old_streams.len() {
                            assert(self.streams@[a] == old_streams[a]);
                            assert(self.streams@[b] == old_streams[b]);
                        } else if a < old_streams.len() {
                            assert(self@[a] == old(self)@[a]);
                            assert(!named(old(self)@, stream_name@, a));
                        } else {
                            assert(self@[b] == old(self)@[b]);
                            assert(!named(old(self)@, stream_name@, b));
                        }
                    }
                }
                self.streams.len() - 1
            },
        };
        let ghost mid = self.streams@;
        let plen = payload.len();
        assert(mid[idx as int].wf());
        assert(mid[idx as int]@.state.bytes + payload@.len() <= u64::MAX) by {
            if has_stream(old(self)@, stream_name@) {
                assert(named(old(self)@, stream_name@, idx as int));
            }
        }
        let seq = self.streams[idx].store_at(subject, reply_to, payload, headers, timestamp, now);
        proof {
            assert(self.streams@ == mid.update(idx as int, self.streams@[idx as int]));
            assert forall|a: int, b: int|
                0 <= a < self.streams@.len() && 0 <= b < self.streams@.len() && a != b
                implies (#[trigger] self.streams@[a])@.name != (#[trigger] self.streams@[b])@.name by {
                assert(mid[a]@.name != mid[b]@.name);
            }
            assert forall|a: int| 0 <= a < self.streams@.len() implies (#[trigger] self.streams@[a]).wf() by {
                if a != idx {
                    assert(self.streams@[a] == mid[a]);
                }
            }
            if has_stream(old(self)@, stream_name@) {
                assert(self@ =~= old(self)@.update(idx as int, self@[idx as int]));
            } else {
                assert(self@ =~= old(self)@.push(self@[idx as int]));
            }
        }
        Ok(seq)
    }

    /// Appends a message stamped with the clock to the stream named
    /// `stream_name`, first creating it without limits if there is none, and
    /// applies its limits at the clock's time. Gives the message's sequence
    /// number.
    pub fn store_message(
        &mut self,
        stream_name: &str,
        subject: String,
        reply_to: Option<String>,
        payload: Vec<u8>,
        headers: Option<HeaderMap>,
    ) -> (r: Result<u64, StoreError>)
        requires
            old(self).wf(),
            forall|i: int| named(old(self)@, stream_name@, i) ==> {
                &&& (#[trigger] old(self)@[i]).state.last_seq < u64::MAX - 1
                &&& old(self)@[i].state.bytes + payload@.len() <= u64::MAX
            },
        ensures
            final(self).wf(),
            forall|i: int| named(old(self)@, stream_name@, i) ==> {
                &&& r == Ok::<u64, StoreError>((old(self)@[i].state.last_seq + 1) as u64)
                &&& exists|timestamp: u64, now: u64| final(self)@ == old(self)@.update(i, #[trigger] after_store(
                    old(self)@[i],
                    stored_view_of((old(self)@[i].state.last_seq + 1) as u64, timestamp, subject@, opt_text(reply_to), payload@, opt_headers_view(headers)),
                    now,
                ))
            },
            !has_stream(old(self)@, stream_name@) ==> {
                &&& r == Ok::<u64, StoreError>(1)
                &&& exists|timestamp: u64, now: u64| final(self)@ == old(self)@.push(#[trigger] after_store(
                    empty_stream(stream_name@, no_limits()),
                    stored_view_of(1, timestamp, subject@, opt_text(reply_to), payload@, opt_headers_view(headers)),
                    now,
                ))
            },
    {
        let timestamp = now_millis();
        let now = now_millis();
        self.store_message_at(stream_name, subject, reply_to, payload, headers, timestamp, now)
    }

    /// A copy of the message with sequence number `sequence` in the stream
    /// named `stream_name`; an error where there is no such stream, or where
    /// it does not hold that message (the error gives its last sequence
    /// number).
    pub fn read_message(&self, stream_name: &str, sequence: u64) -> (r: Result<StoredMessage, StoreError>)
        requires
            self.wf(),
        ensures
            !has_stream(self@, stream_name@) ==> (r matches Err(StoreError::StreamNotFound(n)) && n@ == stream_name@),
            forall|i: int| named(self@, stream_name@, i) ==> match read_spec(#[trigger] self@[i], sequence) {
                Some(m) => r matches Ok(msg) && msg@ == m,
                None => r == Err::<StoredMessage, StoreError>(StoreError::InvalidOffset { requested: sequence, max: self@[i].state.last_seq }),
            },
    {
        proof {
            self.lemma_wf();
        }
        match self.position(stream_name) {
            Some(i) => {
                assert(self.streams@[i as int].wf());
                match self.streams[i].read(sequence) {
                    Some(m) => Ok(m.clone()),
                    None => Err(StoreError::InvalidOffset { requested: sequence, max: self.streams[i].state().last_seq }),
                }
            },
            None => Err(StoreError::StreamNotFound(stream_name.to_string())),
        }
    }

    /// Copies of the messages with sequence numbers from `start` to `end`,
    /// both included, in the stream named `stream_name`; an error where there
    /// is no such stream.
    pub fn read_range(&self, stream_name: &str, start: u64, end: u64) -> (r: Result<Vec<StoredMessage>, StoreError>)
        requires
            self.wf(),
        ensures
            !has_stream(self@, stream_name@) ==> (r matches Err(StoreError::StreamNotFound(n)) && n@ == stream_name@),
            forall|i: int| named(self@, stream_name@, i) ==>
                (r matches Ok(list) && stored_views(list@) == range_spec(#[trigger] self@[i], start, end)),
    {
        proof {
            self.lemma_wf();
        }
        match self.position(stream_name) {
            Some(i) => {
                assert(self.streams@[i as int].wf());
                let refs = self.streams[i].read_range(start, end);
                let mut out: Vec<StoredMessage> = Vec::new();
                let mut k: usize = 0;
                while k < refs.len()
                    invariant
                        k <= refs@.len(),
                        out@.len() == k,
                        forall|j: int| 0 <= j < k ==> (#[trigger] out@[j])@ == refs@[j]@,
                    decreases refs@.len() - k,
                {
                    out.push(refs[k].clone());
                    k = k + 1;
                }
                assert(stored_views(out@) =~= refs@.map_values(|m: &StoredMessage| m@));
                Ok(out)
            },
            None => Err(StoreError::StreamNotFound(stream_name.to_string())),
        }
    }
}

} // verus!
