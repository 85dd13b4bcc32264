//! The record format of an append-only segment file, and its index.
//!
//! A record is: sequence (8 bytes), timestamp (8), subject length (2),
//! subject, reply length (2), reply, payload length (4), payload; integers
//! big-endian. The index maps each sequence number, from the segment's base,
//! to the offset of its record. Reading and writing the file is left to the
//! caller; this module computes the bytes and the offsets.

use vstd::prelude::*;

use crate::codec::{u16_be, u32_be, u64_be, read_u16, read_u32, read_u64, put_u16, put_u32, put_u64,
    put_slice, get_u16, get_u32, get_u64, copy_range, lemma_read_u16_be, lemma_read_u32_be,
    lemma_read_u64_be};
use crate::text::{chars_of, decode_text, lossy_text, lemma_text_roundtrip};
use vstd::utf8::encode_utf8;

verus! {

/// The bytes of a record.
pub open spec fn record_bytes(
    sequence: u64,
    timestamp: u64,
    subject: Seq<char>,
    reply_to: Option<Seq<char>>,
    payload: Seq<u8>,
) -> Seq<u8> {
    u64_be(sequence) + u64_be(timestamp) + u16_be(encode_utf8(subject).len() as u16) + encode_utf8(subject)
        + match reply_to {
        Some(r) => u16_be(encode_utf8(r).len() as u16) + encode_utf8(r),
        None => u16_be(0),
    } + u32_be(payload.len() as u32) + payload
}

/// The record for a message.
pub fn encode_record(sequence: u64, timestamp: u64, subject: &str, reply_to: Option<&str>, payload: &[u8]) -> (r: Vec<u8>)
    ensures
        r@ == record_bytes(sequence, timestamp, subject@, match reply_to {
            Some(x) => Some(x@),
            None => None,
        }, payload@),
{
    let subject_bytes = subject.as_bytes();
    let mut buf: Vec<u8> = Vec::new();
    put_u64(&mut buf, sequence);
    put_u64(&mut buf, timestamp);
    put_u16(&mut buf, subject_bytes.len() as u16);
    put_slice(&mut buf, subject_bytes);
    match reply_to {
        Some(reply) => {
            let rb = reply.as_bytes();
            put_u16(&mut buf, rb.len() as u16);
            put_slice(&mut buf, rb);
        },
        None => {
            put_u16(&mut buf, 0);
        },
    }
    put_u32(&mut buf, payload.len() as u32);
    put_slice(&mut buf, payload);
    proof {
        assert(buf@ =~= record_bytes(sequence, timestamp, subject@, match reply_to {
            Some(x) => Some(x@),
            None => None,
        }, payload@));
    }
    buf
}

/// A record read back.
pub struct StoredRecord {
    pub sequence: u64,
    pub timestamp: u64,
    pub subject: String,
    pub reply_to: Option<String>,
    pub payload: Vec<u8>,
}

/// What a record read back holds.
pub struct RecordView {
    pub sequence: u64,
    pub timestamp: u64,
    pub subject: Seq<char>,
    pub reply_to: Option<Seq<char>>,
    pub payload: Seq<u8>,
}

impl View for StoredRecord {
    type V = RecordView;

    open spec fn view(&self) -> RecordView {
        RecordView {
            sequence: self.sequence,
            timestamp: self.timestamp,
            subject: self.subject@,
            reply_to: match self.reply_to {
                Some(r) => Some(r@),
                None => None,
            },
            payload: self.payload@,
        }
    }
}

/// The record at the start of `b`, where `b` holds all of it: text is
/// decoded leniently, and an empty reply reads as none.
pub open spec fn decode_record_spec(b: Seq<u8>) -> Option<RecordView> {
    if b.len() < 18 {
        None
    } else {
        let slen = read_u16(b, 16) as int;
        let p1 = 18 + slen;
        if p1 + 2 > b.len() {
            None
        } else {
            let rlen = read_u16(b, p1) as int;
            let p2 = p1 + 2 + rlen;
            if p2 + 4 > b.len() {
                None
            } else {
                let plen = read_u32(b, p2) as int;
                let p3 = p2 + 4 + plen;
                if p3 > b.len() {
                    None
                } else {
                    let reply = lossy_text(b.subrange(p1 + 2, p2));
                    Some(RecordView {
                        sequence: read_u64(b, 0),
                        timestamp: read_u64(b, 8),
                        subject: lossy_text(b.subrange(18, p1)),
                        reply_to: if reply.len() == 0 { None } else { Some(reply) },
                        payload: b.subrange(p2 + 4, p3),
                    })
                }
            }
        }
    }
}

/// The record at the start of `b`; none where `b` ends before it does.
pub fn decode_record(b: &[u8]) -> (r: Option<StoredRecord>)
    ensures
        match r {
            Some(rec) => decode_record_spec(b@) == Some(rec@),
            None => decode_record_spec(b@) is None,
        },
{
    let n = b.len();
    if n < 18 {
        return None;
    }
    let sequence = get_u64(b, 0);
    let timestamp = get_u64(b, 8);
    let slen = get_u16(b, 16) as usize;
    let p1 = 18 + slen;
    if p1 > n || n - p1 < 2 {
        return None;
    }
    let rlen = get_u16(b, p1) as usize;
    let reply_start = p1 + 2;
    if n - reply_start < rlen {
        return None;
    }
    let p2 = reply_start + rlen;
    if n - p2 < 4 {
        return None;
    }
    let plen = get_u32(b, p2) as usize;
    let payload_start = p2 + 4;
    if n - payload_start < plen {
        return None;
    }
    let p3 = payload_start + plen;
    let subject = decode_text(copy_range(b, 18, p1).as_slice());
    let reply = decode_text(copy_range(b, reply_start, p2).as_slice());
    let reply_chars = chars_of(reply.as_str());
    let reply_to = if reply_chars.len() == 0 { None } else { Some(reply) };
    let payload = copy_range(b, payload_start, p3);
    Some(StoredRecord { sequence, timestamp, subject, reply_to, payload })
}

/// A record reads back as written, with an empty reply read as none, where
/// the subject and reply fit their 16-bit lengths and the payload its 32-bit
/// length.
pub proof fn lemma_record_roundtrip(
    sequence: u64,
    timestamp: u64,
    subject: Seq<char>,
    reply_to: Option<Seq<char>>,
    payload: Seq<u8>,
    rest: Seq<u8>,
)
    requires
        encode_utf8(subject).len() <= u16::MAX,
        reply_to matches Some(r) ==> encode_utf8(r).len() <= u16::MAX,
        payload.len() <= u32::MAX,
    ensures
        decode_record_spec(record_bytes(sequence, timestamp, subject, reply_to, payload) + rest) == Some(RecordView {
            sequence,
            timestamp,
            subject,
            reply_to: match reply_to {
                Some(r) => if r.len() == 0 { None } else { Some(r) },
                None => None,
            },
            payload,
        }),
{
    let b = record_bytes(sequence, timestamp, subject, reply_to, payload) + rest;
    let sb = encode_utf8(subject);
    let rb = match reply_to {
        Some(r) => encode_utf8(r),
        None => Seq::<u8>::empty(),
    };
    let slen: int = sb.len() as int;
    let rlen: int = rb.len() as int;
    let p1: int = 18 + slen;
    let p2: int = p1 + 2 + rlen;
    let p3: int = p2 + 4 + payload.len();
    assert(b.subrange(0, 8) =~= u64_be(sequence));
    assert(b.subrange(8, 16) =~= u64_be(timestamp));
    assert(b.subrange(16, 18) =~= u16_be(slen as u16));
    assert(b.subrange(18, p1) =~= sb);
    assert(b.subrange(p1, p1 + 2) =~= u16_be(rlen as u16));
    assert(b.subrange(p1 + 2, p2) =~= rb);
    assert(b.subrange(p2, p2 + 4) =~= u32_be(payload.len() as u32));
    assert(b.subrange(p2 + 4, p3) =~= payload);
    lemma_read_u64_be(b, 0, sequence);
    lemma_read_u64_be(b, 8, timestamp);
    lemma_read_u16_be(b, 16, slen as u16);
    lemma_read_u16_be(b, p1, rlen as u16);
    lemma_read_u32_be(b, p2, payload.len() as u32);
    lemma_text_roundtrip(subject);
    match reply_to {
        Some(r) => {
            lemma_text_roundtrip(r);
        },
        None => {
            assert(lossy_text(Seq::<u8>::empty()) == Seq::<char>::empty()) by {
                lemma_text_roundtrip(Seq::<char>::empty());
                assert(encode_utf8(Seq::<char>::empty()) =~= Seq::<u8>::empty());
            }
        },
    }
}

/// A scan that reaches a record written whole finds it where it starts,
/// with its timestamp, and goes on right after it: rebuilding an index from
/// the file finds the records that the writes put there.
pub proof fn lemma_scan_finds_record(
    before: Seq<u8>,
    sequence: u64,
    timestamp: u64,
    subject: Seq<char>,
    reply_to: Option<Seq<char>>,
    payload: Seq<u8>,
    after: Seq<u8>,
)
    requires
        encode_utf8(subject).len() <= u16::MAX,
        reply_to matches Some(r) ==> encode_utf8(r).len() <= u16::MAX,
        payload.len() <= u32::MAX,
        before.len() <= u64::MAX,
    ensures
        ({
            let rec = record_bytes(sequence, timestamp, subject, reply_to, payload);
            let b = before + rec + after;
            scan_spec(b, before.len() as int) == (
                seq![IndexEntry { offset: before.len() as u64, timestamp }] + scan_spec(b, (before.len() + rec.len()) as int).0,
                scan_spec(b, (before.len() + rec.len()) as int).1,
            )
        }),
{
    let rec = record_bytes(sequence, timestamp, subject, reply_to, payload);
    let b = before + rec + after;
    let o: int = before.len() as int;
    let sb = encode_utf8(subject);
    let rb = match reply_to {
        Some(r) => encode_utf8(r),
        None => Seq::<u8>::empty(),
    };
    let slen: int = sb.len() as int;
    let rlen: int = rb.len() as int;
    let p1: int = o + 18 + slen;
    let p2: int = p1 + 2 + rlen;
    assert(b.subrange(o + 8, o + 16) =~= u64_be(timestamp));
    assert(b.subrange(o + 16, o + 18) =~= u16_be(slen as u16));
    assert(b.subrange(p1, p1 + 2) =~= u16_be(rlen as u16));
    assert(b.subrange(p2, p2 + 4) =~= u32_be(payload.len() as u32));
    lemma_read_u64_be(b, o + 8, timestamp);
    lemma_read_u16_be(b, o + 16, slen as u16);
    lemma_read_u16_be(b, p1, rlen as u16);
    lemma_read_u32_be(b, p2, payload.len() as u32);
    assert(p2 + 4 + payload.len() == o + rec.len());
}

/// An index entry: where a record starts and when it was stored.
#[derive(Clone, Copy, Debug, PartialEq, Eq, Structural)]
pub struct IndexEntry {
    pub offset: u64,
    pub timestamp: u64,
}

/// The entries found by scanning records from position `pos` of `b`, and
/// the position after the last: a record counts once its three length
/// fields can be read, though its payload may run past the end.
pub open spec fn scan_spec(b: Seq<u8>, pos: int) -> (Seq<IndexEntry>, int)
    decreases (if 0 <= pos <= b.len() { b.len() - pos + 1 } else { 0 }),
{
    if pos < 0 || pos + 18 > b.len() {
        (Seq::empty(), pos)
    } else {
        let p1 = pos + 18 + read_u16(b, pos + 16);
        if p1 + 2 > b.len() {
            (Seq::empty(), pos)
        } else {
            let p2 = p1 + 2 + read_u16(b, p1);
            if p2 + 4 > b.len() {
                (Seq::empty(), pos)
            } else {
                let next = p2 + 4 + read_u32(b, p2);
                let rest = scan_spec(b, next);
                (seq![IndexEntry { offset: pos as u64, timestamp: read_u64(b, pos + 8) }] + rest.0, rest.1)
            }
        }
    }
}

/// What an index holds.
pub struct SegmentView {
    pub entries: Seq<IndexEntry>,
    pub base_sequence: u64,
    pub bytes_written: u64,
}

/// The index of a segment: the offset of each record, numbered from the
/// base sequence, and how many bytes the records take.
pub struct SegmentIndex {
    index: Vec<IndexEntry>,
    base_sequence: u64,
    bytes_written: u64,
}

impl View for SegmentIndex {
    type V = SegmentView;

    closed spec fn view(&self) -> SegmentView {
        SegmentView { entries: self.index@, base_sequence: self.base_sequence, bytes_written: self.bytes_written }
    }
}

impl SegmentIndex {
    /// An empty index whose first record will have sequence number
    /// `base_sequence`.
    pub fn new(base_sequence: u64) -> (r: SegmentIndex)
        ensures
            r@ == (SegmentView { entries: Seq::empty(), base_sequence, bytes_written: 0 }),
    {
        SegmentIndex { index: Vec::new(), base_sequence, bytes_written: 0 }
    }

    /// The index of the records in `b`, the contents of a segment file, as
    /// a scan from its start finds them.
    pub fn rebuild(b: &[u8], base_sequence: u64) -> (r: SegmentIndex)
        requires
            b@.len() < 0x1_0000_0000_0000,
        ensures
            r@ == (SegmentView {
                entries: scan_spec(b@, 0).0,
                base_sequence,
                bytes_written: scan_spec(b@, 0).1 as u64,
            }),
            0 <= scan_spec(b@, 0).1 < 0x2_0000_0000_0000,
    {
        let nu = b.len();
        let n = nu as u64;
        let mut index: Vec<IndexEntry> = Vec::new();
        let mut pos: u64 = 0;
        let mut done = false;
        while !done && pos <= n && n - pos >= 18
            invariant
                n == b@.len(),
                nu == b@.len(),
                n < 0x1_0000_0000_0000,
                pos < 0x2_0000_0000_0000,
                done ==> scan_spec(b@, pos as int).0 == Seq::<IndexEntry>::empty() && scan_spec(b@, pos as int).1 == pos,
                scan_spec(b@, 0).0 == index@ + scan_spec(b@, pos as int).0,
                scan_spec(b@, 0).1 == scan_spec(b@, pos as int).1,
            decreases (if pos <= n { n - pos + 1 } else { 0 }) * 2 + (if done { 0int } else { 1int }),
        {
            let at = pos as usize;
            let timestamp = get_u64(b, at + 8);
            let slen = get_u16(b, at + 16) as u64;
            let p1 = pos + 18 + slen;
            if p1 > n || n - p1 < 2 {
                assert(scan_spec(b@, pos as int) == (Seq::<IndexEntry>::empty(), pos as int));
                done = true;
            } else {
                let rlen = get_u16(b, p1 as usize) as u64;
                let p2 = p1 + 2 + rlen;
                if p2 > n || n - p2 < 4 {
                    assert(scan_spec(b@, pos as int) == (Seq::<IndexEntry>::empty(), pos as int));
                    done = true;
                } else {
                    let plen = get_u32(b, p2 as usize) as u64;
                    let next = p2 + 4 + plen;
                    let ghost entry = IndexEntry { offset: pos, timestamp };
                    assert(scan_spec(b@, pos as int) == (seq![entry] + scan_spec(b@, next as int).0, scan_spec(b@, next as int).1));
                    index.push(IndexEntry { offset: pos, timestamp });
                    proof {
                        assert(index@ + scan_spec(b@, next as int).0 =~= (index@.drop_last() + scan_spec(b@, pos as int).0));
                    }
                    pos = next;
                }
            }
        }
        SegmentIndex { index, base_sequence, bytes_written: pos }
    }

    /// How many records the index holds.
    pub fn len(&self) -> (r: usize)
        ensures
            r == self@.entries.len(),
    {
        self.index.len()
    }

    /// The sequence number of the segment's first record.
    pub fn base_sequence(&self) -> (r: u64)
        ensures
            r == self@.base_sequence,
    {
        self.base_sequence
    }

    /// How many bytes of records the segment holds.
    pub fn bytes_written(&self) -> (r: u64)
        ensures
            r == self@.bytes_written,
    {
        self.bytes_written
    }

    /// Whether the index holds no record.
    pub fn is_empty(&self) -> (r: bool)
        ensures
            r == (self@.entries.len() == 0),
    {
        self.index.len() == 0
    }

    /// The sequence number of the last record, if any.
    pub fn last_sequence(&self) -> (r: Option<u64>)
        requires
            self@.base_sequence + self@.entries.len() <= u64::MAX + 1,
        ensures
            self@.entries.len() == 0 ==> r is None,
            self@.entries.len() > 0 ==> r == Some((self@.base_sequence + self@.entries.len() - 1) as u64),
    {
        if self.index.len() == 0 {
            None
        } else {
            Some(self.base_sequence + (self.index.len() - 1) as u64)
        }
    }

    /// Whether another record can get a sequence number.
    pub fn has_sequence_room(&self) -> (r: bool)
        ensures
            r == (self@.base_sequence + self@.entries.len() <= u64::MAX),
    {
        let n = self.index.len();
        n as u64 <= u64::MAX - self.base_sequence
    }

    /// Whether a record of `len` more bytes can be placed.
    pub fn has_offset_room(&self, len: u64) -> (r: bool)
        ensures
            r == (self@.bytes_written + len <= u64::MAX),
    {
        len <= u64::MAX - self.bytes_written
    }

    /// The sequence number the next record will have.
    pub fn next_sequence(&self) -> (r: u64)
        requires
            self@.base_sequence + self@.entries.len() <= u64::MAX,
        ensures
            r == self@.base_sequence + self@.entries.len(),
    {
        self.base_sequence + self.index.len() as u64
    }

    /// The next record's sequence number and its bytes, for a message.
    pub fn encode_next(&self, subject: &str, reply_to: Option<&str>, payload: &[u8], timestamp: u64) -> (r: (u64, Vec<u8>))
        requires
            self@.base_sequence + self@.entries.len() <= u64::MAX,
        ensures
            r.0 == self@.base_sequence + self@.entries.len(),
            r.1@ == record_bytes(r.0, timestamp, subject@, match reply_to {
                Some(x) => Some(x@),
                None => None,
            }, payload@),
    {
        let seq = self.next_sequence();
        (seq, encode_record(seq, timestamp, subject, reply_to, payload))
    }

    /// Records that a record of `len` bytes stamped `timestamp` was written
    /// at the end of the segment.
    pub fn record_written(&mut self, timestamp: u64, len: u64)
        requires
            old(self)@.bytes_written + len <= u64::MAX,
        ensures
            final(self)@ == (SegmentView {
                entries: old(self)@.entries.push(IndexEntry { offset: old(self)@.bytes_written, timestamp }),
                bytes_written: (old(self)@.bytes_written + len) as u64,
                ..old(self)@
            }),
    {
        self.index.push(IndexEntry { offset: self.bytes_written, timestamp });
        self.bytes_written = self.bytes_written + len;
    }

    /// Where the record with sequence number `sequence` starts, if the
    /// index holds it.
    pub fn offset_of(&self, sequence: u64) -> (r: Option<u64>)
        ensures
            r == (if self@.base_sequence <= sequence && sequence - self@.base_sequence < self@.entries.len() {
                Some(self@.entries[sequence - self@.base_sequence].offset)
            } else {
                None::<u64>
            }),
    {
        if sequence < self.base_sequence {
            return None;
        }
        let idx = sequence - self.base_sequence;
        if idx < self.index.len() as u64 {
            Some(self.index[idx as usize].offset)
        } else {
            None
        }
    }
}

} // verus!
