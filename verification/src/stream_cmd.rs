//! Stream commands: create, delete, acknowledge, negative acknowledge, and
//! the stream information reply. Names travel as a one-byte length and the
//! UTF-8 bytes; numbers as big-endian `u64`.

use vstd::prelude::*;
use vstd::string::*;
use vstd::utf8::*;

use crate::codec::{copy_range, get_u64, lemma_read_u64_be, put_slice, put_u64, read_u64, u64_be};
use crate::text::{decode_text, lemma_text_roundtrip, lossy_text};

verus! {

/// A name on the wire: its UTF-8 length as one byte, then the bytes.
pub open spec fn name_field(s: Seq<char>) -> Seq<u8> {
    seq![encode_utf8(s).len() as u8] + encode_utf8(s)
}

/// The name at the start of `p` and the position after it, or nothing when
/// `p` is empty or shorter than `extra` bytes past the name.
pub open spec fn name_at(p: Seq<u8>, extra: int) -> Option<(Seq<char>, int)> {
    if p.len() == 0 {
        None
    } else if p.len() < 1 + p[0] + extra {
        None
    } else {
        Some((lossy_text(p.subrange(1, 1 + p[0] as int)), 1 + p[0] as int))
    }
}

/// Appends a name field.
fn put_name(buf: &mut Vec<u8>, s: &String)
    ensures
        final(buf)@ == old(buf)@ + name_field(s@),
{
    let bytes = s.as_str().as_bytes();
    let ghost start = buf@;
    buf.push(bytes.len() as u8);
    put_slice(buf, bytes);
    assert(buf@ =~= start + name_field(s@));
}

/// Reads the name at the start of `payload`, which must hold `extra` more
/// bytes after it.
fn read_name(payload: &[u8], extra: usize) -> (r: Option<(String, usize)>)
    requires
        extra <= 64,
    ensures
        match r {
            Some((s, n)) => name_at(payload@, extra as int) == Some((s@, n as int)),
            None => name_at(payload@, extra as int) is None,
        },
{
    if payload.len() == 0 {
        return None;
    }
    let name_len = payload[0] as usize;
    if payload.len() < 1 + name_len + extra {
        return None;
    }
    let nb = copy_range(payload, 1, 1 + name_len);
    Some((decode_text(nb.as_slice()), 1 + name_len))
}

/// A name shorter than 256 bytes reads back from its field.
proof fn lemma_name_roundtrip(s: Seq<char>, tail: Seq<u8>, extra: int)
    requires
        encode_utf8(s).len() < 256,
        0 <= extra <= tail.len(),
    ensures
        name_at(name_field(s) + tail, extra) == Some((s, 1 + encode_utf8(s).len() as int)),
{
    let p = name_field(s) + tail;
    let n = encode_utf8(s).len() as int;
    assert(p[0] == n as u8);
    assert((n as u8) as int == n);
    assert(p.subrange(1, 1 + n) =~= encode_utf8(s));
    lemma_text_roundtrip(s);
}

/// The `u64` at `off` in `p`, from its field.
proof fn lemma_u64_at(p: Seq<u8>, off: int, x: u64)
    requires
        0 <= off,
        off + 8 <= p.len(),
        p.subrange(off, off + 8) == u64_be(x),
    ensures
        read_u64(p, off) == x,
{
    lemma_read_u64_be(p, off, x);
}

/// A CREATE_STREAM command.
pub struct CreateStreamCommand {
    pub name: String,
    pub max_msgs: u64,
    pub max_bytes: u64,
    pub max_age_secs: u64,
}

/// The abstract value of a CREATE_STREAM command.
pub struct CreateStreamView {
    pub name: Seq<char>,
    pub max_msgs: u64,
    pub max_bytes: u64,
    pub max_age_secs: u64,
}

impl View for CreateStreamCommand {
    type V = CreateStreamView;

    open spec fn view(&self) -> CreateStreamView {
        CreateStreamView { name: self.name@, max_msgs: self.max_msgs, max_bytes: self.max_bytes, max_age_secs: self.max_age_secs }
    }
}

/// The bytes of a CREATE_STREAM command.
pub open spec fn create_stream_bytes(c: CreateStreamView) -> Seq<u8> {
    name_field(c.name) + u64_be(c.max_msgs) + u64_be(c.max_bytes) + u64_be(c.max_age_secs)
}

/// The CREATE_STREAM command a payload holds.
pub open spec fn create_stream_spec(p: Seq<u8>) -> Option<CreateStreamView> {
    match name_at(p, 24) {
        Some((name, o)) => Some(CreateStreamView {
            name,
            max_msgs: read_u64(p, o),
            max_bytes: read_u64(p, o + 8),
            max_age_secs: read_u64(p, o + 16),
        }),
        None => None,
    }
}

impl CreateStreamCommand {
    /// The command's payload.
    pub fn encode_payload(&self) -> (r: Vec<u8>)
        ensures
            r@ == create_stream_bytes(self@),
    {
        let mut buf: Vec<u8> = Vec::new();
        put_name(&mut buf, &self.name);
        put_u64(&mut buf, self.max_msgs);
        put_u64(&mut buf, self.max_bytes);
        put_u64(&mut buf, self.max_age_secs);
        assert(buf@ =~= create_stream_bytes(self@));
        buf
    }

    /// Reads the command from a payload.
    pub fn decode(payload: &[u8]) -> (r: Result<CreateStreamCommand, String>)
        ensures
            match r {
                Ok(c) => create_stream_spec(payload@) == Some(c@),
                Err(_) => create_stream_spec(payload@) is None,
            },
    {
        let (name, o) = match read_name(payload, 24) {
            Some(x) => x,
            None => {
                return Err(if payload.len() == 0 { "empty payload".to_owned() } else { "payload too short".to_owned() });
            },
        };
        Ok(CreateStreamCommand {
            name,
            max_msgs: get_u64(payload, o),
            max_bytes: get_u64(payload, o + 8),
            max_age_secs: get_u64(payload, o + 16),
        })
    }
}

/// CREATE_STREAM round trip for names shorter than 256 bytes.
pub proof fn lemma_create_stream_roundtrip(c: CreateStreamView)
    requires
        encode_utf8(c.name).len() < 256,
    ensures
        create_stream_spec(create_stream_bytes(c)) == Some(c),
{
    let p = create_stream_bytes(c);
    let n = encode_utf8(c.name).len() as int;
    let tail = u64_be(c.max_msgs) + u64_be(c.max_bytes) + u64_be(c.max_age_secs);
    assert(p =~= name_field(c.name) + tail);
    lemma_name_roundtrip(c.name, tail, 24);
    assert(p.subrange(1 + n, 9 + n) =~= u64_be(c.max_msgs));
    lemma_u64_at(p, 1 + n, c.max_msgs);
    assert(p.subrange(9 + n, 17 + n) =~= u64_be(c.max_bytes));
    lemma_u64_at(p, 9 + n, c.max_bytes);
    assert(p.subrange(17 + n, 25 + n) =~= u64_be(c.max_age_secs));
    lemma_u64_at(p, 17 + n, c.max_age_secs);
}

/// A DELETE_STREAM command.
pub struct DeleteStreamCommand {
    pub name: String,
}

/// The DELETE_STREAM command a payload holds: the stream's name.
pub open spec fn delete_stream_spec(p: Seq<u8>) -> Option<Seq<char>> {
    match name_at(p, 0) {
        Some((name, _)) => Some(name),
        None => None,
    }
}

impl DeleteStreamCommand {
    /// The command's payload.
    pub fn encode_payload(&self) -> (r: Vec<u8>)
        ensures
            r@ == name_field(self.name@),
    {
        let mut buf: Vec<u8> = Vec::new();
        put_name(&mut buf, &self.name);
        buf
    }

    /// Reads the command from a payload.
    pub fn decode(payload: &[u8]) -> (r: Result<DeleteStreamCommand, String>)
        ensures
            match r {
                Ok(c) => delete_stream_spec(payload@) == Some(c.name@),
                Err(_) => delete_stream_spec(payload@) is None,
            },
    {
        match read_name(payload, 0) {
            Some((name, _)) => Ok(DeleteStreamCommand { name }),
            None => Err(if payload.len() == 0 { "empty payload".to_owned() } else { "payload too short".to_owned() }),
        }
    }
}

/// DELETE_STREAM round trip for names shorter than 256 bytes.
pub proof fn lemma_delete_stream_roundtrip(name: Seq<char>)
    requires
        encode_utf8(name).len() < 256,
    ensures
        delete_stream_spec(name_field(name)) == Some(name),
{
    assert(name_field(name) + Seq::<u8>::empty() =~= name_field(name));
    lemma_name_roundtrip(name, Seq::empty(), 0);
}

/// The bytes of an ACK or NACK: the stream's name and the sequence.
pub open spec fn seq_ack_bytes(stream: Seq<char>, sequence: u64) -> Seq<u8> {
    name_field(stream) + u64_be(sequence)
}

/// The stream and sequence an ACK or NACK payload holds.
pub open spec fn seq_ack_spec(p: Seq<u8>) -> Option<(Seq<char>, u64)> {
    match name_at(p, 8) {
        Some((name, o)) => Some((name, read_u64(p, o))),
        None => None,
    }
}

/// Reads a stream name and a sequence.
fn decode_seq_ack(payload: &[u8]) -> (r: Result<(String, u64), String>)
    ensures
        match r {
            Ok((s, q)) => seq_ack_spec(payload@) == Some((s@, q)),
            Err(_) => seq_ack_spec(payload@) is None,
        },
{
    match read_name(payload, 8) {
        Some((stream, o)) => Ok((stream, get_u64(payload, o))),
        None => Err(if payload.len() == 0 { "empty payload".to_owned() } else { "payload too short".to_owned() }),
    }
}

/// Writes a stream name and a sequence.
fn encode_seq_ack(stream: &String, sequence: u64) -> (r: Vec<u8>)
    ensures
        r@ == seq_ack_bytes(stream@, sequence),
{
    let mut buf: Vec<u8> = Vec::new();
    put_name(&mut buf, stream);
    put_u64(&mut buf, sequence);
    assert(buf@ =~= seq_ack_bytes(stream@, sequence));
    buf
}

/// ACK and NACK round trip for names shorter than 256 bytes.
pub proof fn lemma_seq_ack_roundtrip(stream: Seq<char>, sequence: u64)
    requires
        encode_utf8(stream).len() < 256,
    ensures
        seq_ack_spec(seq_ack_bytes(stream, sequence)) == Some((stream, sequence)),
{
    let p = seq_ack_bytes(stream, sequence);
    let n = encode_utf8(stream).len() as int;
    lemma_name_roundtrip(stream, u64_be(sequence), 8);
    assert(p.subrange(1 + n, 9 + n) =~= u64_be(sequence));
    lemma_u64_at(p, 1 + n, sequence);
}

/// An ACK command.
pub struct AckCommand {
    pub stream: String,
    pub sequence: u64,
}

impl AckCommand {
    /// The command's payload.
    pub fn encode_payload(&self) -> (r: Vec<u8>)
        ensures
            r@ == seq_ack_bytes(self.stream@, self.sequence),
    {
        encode_seq_ack(&self.stream, self.sequence)
    }

    /// Reads the command from a payload.
    pub fn decode(payload: &[u8]) -> (r: Result<AckCommand, String>)
        ensures
            match r {
                Ok(c) => seq_ack_spec(payload@) == Some((c.stream@, c.sequence)),
                Err(_) => seq_ack_spec(payload@) is None,
            },
    {
        match decode_seq_ack(payload) {
            Ok((stream, sequence)) => Ok(AckCommand { stream, sequence }),
            Err(e) => Err(e),
        }
    }
}

/// A NACK command.
pub struct NackCommand {
    pub stream: String,
    pub sequence: u64,
}

impl NackCommand {
    /// The command's payload.
    pub fn encode_payload(&self) -> (r: Vec<u8>)
        ensures
            r@ == seq_ack_bytes(self.stream@, self.sequence),
    {
        encode_seq_ack(&self.stream, self.sequence)
    }

    /// Reads the command from a payload.
    pub fn decode(payload: &[u8]) -> (r: Result<NackCommand, String>)
        ensures
            match r {
                Ok(c) => seq_ack_spec(payload@) == Some((c.stream@, c.sequence)),
                Err(_) => seq_ack_spec(payload@) is None,
            },
    {
        match decode_seq_ack(payload) {
            Ok((stream, sequence)) => Ok(NackCommand { stream, sequence }),
            Err(e) => Err(e),
        }
    }
}

/// The STREAM_INFO reply.
pub struct StreamInfoResponse {
    pub name: String,
    pub messages: u64,
    pub bytes: u64,
    pub first_seq: u64,
    pub last_seq: u64,
    pub max_msgs: u64,
    pub max_bytes: u64,
    pub max_age_secs: u64,
}

/// The abstract value of a STREAM_INFO reply.
pub struct StreamInfoView {
    pub name: Seq<char>,
    pub messages: u64,
    pub bytes: u64,
    pub first_seq: u64,
    pub last_seq: u64,
    pub max_msgs: u64,
    pub max_bytes: u64,
    pub max_age_secs: u64,
}

impl View for StreamInfoResponse {
    type V = StreamInfoView;

    open spec fn view(&self) -> StreamInfoView {
        StreamInfoView {
            name: self.name@,
            messages: self.messages,
            bytes: self.bytes,
            first_seq: self.first_seq,
            last_seq: self.last_seq,
            max_msgs: self.max_msgs,
            max_bytes: self.max_bytes,
            max_age_secs: self.max_age_secs,
        }
    }
}

/// The bytes of a STREAM_INFO reply.
pub open spec fn stream_info_bytes(c: StreamInfoView) -> Seq<u8> {
    name_field(c.name) + u64_be(c.messages) + u64_be(c.bytes) + u64_be(c.first_seq) + u64_be(c.last_seq)
        + u64_be(c.max_msgs) + u64_be(c.max_bytes) + u64_be(c.max_age_secs)
}

/// The STREAM_INFO reply a payload holds.
pub open spec fn stream_info_spec(p: Seq<u8>) -> Option<StreamInfoView> {
    match name_at(p, 56) {
        Some((name, o)) => Some(StreamInfoView {
            name,
            messages: read_u64(p, o),
            bytes: read_u64(p, o + 8),
            first_seq: read_u64(p, o + 16),
            last_seq: read_u64(p, o + 24),
            max_msgs: read_u64(p, o + 32),
            max_bytes: read_u64(p, o + 40),
            max_age_secs: read_u64(p, o + 48),
        }),
        None => None,
    }
}

impl StreamInfoResponse {
    /// The reply's payload.
    pub fn encode_payload(&self) -> (r: Vec<u8>)
        ensures
            r@ == stream_info_bytes(self@),
    {
        let mut buf: Vec<u8> = Vec::new();
        put_name(&mut buf, &self.name);
        put_u64(&mut buf, self.messages);
        put_u64(&mut buf, self.bytes);
        put_u64(&mut buf, self.first_seq);
        put_u64(&mut buf, self.last_seq);
        put_u64(&mut buf, self.max_msgs);
        put_u64(&mut buf, self.max_bytes);
        put_u64(&mut buf, self.max_age_secs);
        assert(buf@ =~= stream_info_bytes(self@));
        buf
    }

    /// Reads the reply from a payload.
    pub fn decode(payload: &[u8]) -> (r: Result<StreamInfoResponse, String>)
        ensures
            match r {
                Ok(c) => stream_info_spec(payload@) == Some(c@),
                Err(_) => stream_info_spec(payload@) is None,
            },
    {
        let (name, o) = match read_name(payload, 56) {
            Some(x) => x,
            None => {
                return Err(if payload.len() == 0 { "empty payload".to_owned() } else { "payload too short".to_owned() });
            },
        };
        Ok(StreamInfoResponse {
            name,
            messages: get_u64(payload, o),
            bytes: get_u64(payload, o + 8),
            first_seq: get_u64(payload, o + 16),
            last_seq: get_u64(payload, o + 24),
            max_msgs: get_u64(payload, o + 32),
            max_bytes: get_u64(payload, o + 40),
            max_age_secs: get_u64(payload, o + 48),
        })
    }
}

/// STREAM_INFO round trip for names shorter than 256 bytes.
pub proof fn lemma_stream_info_roundtrip(c: StreamInfoView)
    requires
        encode_utf8(c.name).len() < 256,
    ensures
        stream_info_spec(stream_info_bytes(c)) == Some(c),
{
    let p = stream_info_bytes(c);
    let n = encode_utf8(c.name).len() as int;
    let tail = u64_be(c.messages) + u64_be(c.bytes) + u64_be(c.first_seq) + u64_be(c.last_seq)
        + u64_be(c.max_msgs) + u64_be(c.max_bytes) + u64_be(c.max_age_secs);
    assert(p =~= name_field(c.name) + tail);
    lemma_name_roundtrip(c.name, tail, 56);
    assert(p.subrange(1 + n, 9 + n) =~= u64_be(c.messages));
    lemma_u64_at(p, 1 + n, c.messages);
    assert(p.subrange(9 + n, 17 + n) =~= u64_be(c.bytes));
    lemma_u64_at(p, 9 + n, c.bytes);
    assert(p.subrange(17 + n, 25 + n) =~= u64_be(c.first_seq));
    lemma_u64_at(p, 17 + n, c.first_seq);
    assert(p.subrange(25 + n, 33 + n) =~= u64_be(c.last_seq));
    lemma_u64_at(p, 25 + n, c.last_seq);
    assert(p.subrange(33 + n, 41 + n) =~= u64_be(c.max_msgs));
    lemma_u64_at(p, 33 + n, c.max_msgs);
    assert(p.subrange(41 + n, 49 + n) =~= u64_be(c.max_bytes));
    lemma_u64_at(p, 41 + n, c.max_bytes);
    assert(p.subrange(49 + n, 57 + n) =~= u64_be(c.max_age_secs));
    lemma_u64_at(p, 49 + n, c.max_age_secs);
}

} // verus!
