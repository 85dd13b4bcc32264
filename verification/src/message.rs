//! Messages as the broker carries them.

use vstd::prelude::*;

use crate::headers::{map_put, names_distinct};
use crate::id::MessageId;
use crate::text::str_eq;
use crate::subject::Subject;

verus! {

/// Message headers: name and value pairs, names distinct.
pub struct HeaderMap {
    entries: Vec<(String, String)>,
}

/// The text of name and value pairs.
pub open spec fn pairs_view(v: Seq<(String, String)>) -> Seq<(Seq<char>, Seq<char>)> {
    v.map_values(|p: (String, String)| (p.0@, p.1@))
}

/// The text of headers, in their order.
pub closed spec fn headers_view(h: HeaderMap) -> Seq<(Seq<char>, Seq<char>)> {
    pairs_view(h.entries@)
}

impl HeaderMap {
    /// No two entries share a name.
    #[verifier::type_invariant]
    closed spec fn names_unique(self) -> bool {
        names_distinct(pairs_view(self.entries@))
    }

    /// No headers.
    pub fn new() -> (r: Self)
        ensures
            headers_view(r) == Seq::<(Seq<char>, Seq<char>)>::empty(),
    {
        let r = HeaderMap { entries: Vec::new() };
        assert(pairs_view(r.entries@) =~= Seq::<(Seq<char>, Seq<char>)>::empty());
        r
    }

    /// How many entries there are; no two share a name.
    pub fn len(&self) -> (r: usize)
        ensures
            r == headers_view(*self).len(),
            names_distinct(headers_view(*self)),
    {
        proof {
            use_type_invariant(self);
        }
        self.entries.len()
    }

    /// Whether there is no entry.
    pub fn is_empty(&self) -> (r: bool)
        ensures
            r == (headers_view(*self).len() == 0),
    {
        self.entries.len() == 0
    }

    /// The entry at position `i`.
    pub fn entry(&self, i: usize) -> (r: &(String, String))
        requires
            i < headers_view(*self).len(),
        ensures
            headers_view(*self)[i as int] == (r.0@, r.1@),
    {
        &self.entries[i]
    }

    /// The position of the entry named `k`, if any.
    fn find(&self, k: &str) -> (r: Option<usize>)
        ensures
            match r {
                Some(i) => i < headers_view(*self).len() && headers_view(*self)[i as int].0 == k@,
                None => !exists|i: int| 0 <= i < headers_view(*self).len() && #[trigger] headers_view(*self)[i].0 == k@,
            },
    {
        let mut i: usize = 0;
        while i < self.entries.len()
            invariant
                i <= self.entries@.len(),
                forall|j: int| 0 <= j < i ==> #[trigger] headers_view(*self)[j].0 != k@,
            decreases self.entries@.len() - i,
        {
            if str_eq(self.entries[i].0.as_str(), k) {
                return Some(i);
            }
            i = i + 1;
        }
        None
    }

    /// The value of the entry named `k`, if any.
    pub fn get(&self, k: &str) -> (r: Option<&String>)
        ensures
            match r {
                Some(v) => exists|i: int| 0 <= i < headers_view(*self).len() && #[trigger] headers_view(*self)[i] == (k@, v@),
                None => !exists|i: int| 0 <= i < headers_view(*self).len() && #[trigger] headers_view(*self)[i].0 == k@,
            },
    {
        match self.find(k) {
            Some(i) => {
                let r = &self.entries[i].1;
                assert(headers_view(*self)[i as int] == (k@, r@));
                Some(r)
            },
            None => None,
        }
    }

    /// Sets `k` to `v`: an entry named `k` takes the new value in place,
    /// otherwise the entry is added at the end.
    pub fn insert(&mut self, k: String, v: String)
        ensures
            headers_view(*final(self)) == map_put(headers_view(*old(self)), k@, v@),
            names_distinct(headers_view(*final(self))),
    {
        proof {
            use_type_invariant(&*self);
        }
        let ghost h = headers_view(*self);
        match self.find(k.as_str()) {
            Some(i) => {
                proof {
                    let j = choose|j: int| 0 <= j < h.len() && #[trigger] h[j].0 == k@;
                    if j != i {
                        assert(h[j].0 != h[i as int].0);
                    }
                }
                let mut entries: Vec<(String, String)> = Vec::new();
                std::mem::swap(&mut entries, &mut self.entries);
                entries.set(i, (k, v));
                proof {
                    assert(pairs_view(entries@) =~= h.update(i as int, (k@, v@)));
                    let n = pairs_view(entries@);
                    assert forall|a: int, b: int| 0 <= a < n.len() && 0 <= b < n.len() && a != b implies #[trigger] n[a].0 != #[trigger] n[b].0 by {
                        assert(n[a].0 == h[a].0 && n[b].0 == h[b].0);
                    }
                }
                self.entries = entries;
            },
            None => {
                let mut entries: Vec<(String, String)> = Vec::new();
                std::mem::swap(&mut entries, &mut self.entries);
                entries.push((k, v));
                proof {
                    assert(pairs_view(entries@) =~= h.push((k@, v@)));
                    let n = pairs_view(entries@);
                    assert forall|a: int, b: int| 0 <= a < n.len() && 0 <= b < n.len() && a != b implies #[trigger] n[a].0 != #[trigger] n[b].0 by {
                        if a < h.len() && b < h.len() {
                            assert(n[a].0 == h[a].0 && n[b].0 == h[b].0);
                        } else if a < h.len() {
                            assert(n[a].0 == h[a].0);
                        } else if b < h.len() {
                            assert(n[b].0 == h[b].0);
                        }
                    }
                }
                self.entries = entries;
            },
        }
    }
}

/// A copy of headers.
pub fn clone_headers(h: &HeaderMap) -> (r: HeaderMap)
    ensures
        headers_view(r) == headers_view(*h),
{
    proof {
        use_type_invariant(h);
    }
    let mut r: Vec<(String, String)> = Vec::new();
    let mut i: usize = 0;
    while i < h.entries.len()
        invariant
            i <= h.entries@.len(),
            r@.len() == i,
            forall|j: int| 0 <= j < i ==> (#[trigger] r@[j]).0@ == h.entries@[j].0@ && r@[j].1@ == h.entries@[j].1@,
        decreases h.entries@.len() - i,
    {
        r.push((h.entries[i].0.clone(), h.entries[i].1.clone()));
        i = i + 1;
    }
    assert(pairs_view(r@) =~= pairs_view(h.entries@));
    HeaderMap { entries: r }
}

/// The text of optional headers.
pub open spec fn opt_headers_view(h: Option<HeaderMap>) -> Option<Seq<(Seq<char>, Seq<char>)>> {
    match h {
        Some(m) => Some(headers_view(m)),
        None => None,
    }
}

/// A copy of optional headers.
pub fn clone_opt_headers(h: &Option<HeaderMap>) -> (r: Option<HeaderMap>)
    ensures
        opt_headers_view(r) == opt_headers_view(*h),
{
    match h {
        Some(m) => Some(clone_headers(m)),
        None => None,
    }
}

/// A published message.
pub struct Message {
    pub id: MessageId,
    pub subject: Subject,
    pub payload: Vec<u8>,
    pub headers: Option<HeaderMap>,
    pub reply_to: Option<Subject>,
    pub timestamp_ns: u64,
}

/// One message of a published batch.
pub struct PublishItem {
    pub subject: Subject,
    pub payload: Vec<u8>,
    pub reply_to: Option<Subject>,
    pub headers: Option<HeaderMap>,
}

/// `SystemTime::now()` as nanoseconds since the Unix epoch, or 0 for a
/// clock set before the epoch. Nothing is promised of the value: it is the
/// machine's clock.
#[verifier::external_body]
fn now_nanos() -> u64 {
    match std::time::SystemTime::now().duration_since(std::time::UNIX_EPOCH) {
        Ok(d) => d.as_nanos() as u64,
        Err(_) => 0,
    }
}

impl Clone for Message {
    fn clone(&self) -> (r: Self)
        ensures
            r.id == self.id,
            r.subject@ == self.subject@,
            r.payload@ == self.payload@,
            opt_headers_view(r.headers) == opt_headers_view(self.headers),
            r.reply_to.is_some() == self.reply_to.is_some(),
            r.reply_to.is_some() ==> r.reply_to.unwrap()@ == self.reply_to.unwrap()@,
            r.timestamp_ns == self.timestamp_ns,
    {
        Message {
            id: self.id,
            subject: self.subject.clone(),
            payload: self.payload.clone(),
            headers: clone_opt_headers(&self.headers),
            reply_to: match &self.reply_to {
                Some(s) => Some(s.clone()),
                None => None,
            },
            timestamp_ns: self.timestamp_ns,
        }
    }
}

impl Message {
    /// A message on `subject` with `payload`, id 0, no headers and no reply
    /// subject, stamped with the current time.
    pub fn new(subject: Subject, payload: Vec<u8>) -> (r: Message)
        ensures
            r.id == MessageId(0),
            r.subject@ == subject@,
            r.payload@ == payload@,
            r.headers is None,
            r.reply_to is None,
    {
        let timestamp_ns = now_nanos();
        Message {
            id: MessageId::new(0),
            subject,
            payload,
            headers: None,
            reply_to: None,
            timestamp_ns,
        }
    }

    /// The same message with id `id`.
    pub fn with_id(self, id: MessageId) -> (r: Message)
        ensures
            r.id == id,
            r.subject@ == self.subject@,
            r.payload@ == self.payload@,
            r.headers == self.headers,
            r.reply_to == self.reply_to,
            r.timestamp_ns == self.timestamp_ns,
    {
        let mut m = self;
        m.id = id;
        m
    }

    /// The same message with reply subject `subject`.
    pub fn with_reply_to(self, subject: Subject) -> (r: Message)
        ensures
            r.id == self.id,
            r.subject@ == self.subject@,
            r.payload@ == self.payload@,
            r.headers == self.headers,
            r.reply_to == Some(subject),
            r.timestamp_ns == self.timestamp_ns,
    {
        let mut m = self;
        m.reply_to = Some(subject);
        m
    }

    /// The payload's length in bytes.
    pub fn payload_len(&self) -> (r: usize)
        ensures
            r == self.payload@.len(),
    {
        self.payload.len()
    }
}

} // verus!
