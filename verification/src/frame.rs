//! The binary frame format: a 22-byte header (magic, version, type, flags,
//! correlation id, header-section length, payload length, all big-endian),
//! then the header section, then the payload.

use vstd::prelude::*;

use crate::codec::{
    copy_range, get_u16, get_u32, get_u64, lemma_read_u16_be, lemma_read_u32_be, lemma_read_u64_be,
    put_slice, put_u16, put_u32, put_u64, read_u16, read_u32, read_u64, u16_be, u32_be, u64_be,
};
use crate::error::ProtocolError;

verus! {

/// The magic number that starts every frame ("ZM").
pub const ZETMQ_MAGIC: u16 = 0x5A4D;

/// The size of the fixed frame header in bytes.
pub const FRAME_HEADER_SIZE: usize = 22;

/// Protocol version 1.
pub const PROTOCOL_V1: u8 = 1;

/// The version this implementation speaks.
pub const CURRENT_VERSION: u8 = 1;

/// Whether the protocol version is supported.
pub fn is_supported(version: u8) -> (r: bool)
    ensures
        r == (version == PROTOCOL_V1),
{
    version == PROTOCOL_V1
}

/// The kind of a frame.
#[derive(Clone, Copy, Debug, PartialEq, Eq, Structural)]
pub enum FrameType {
    Connect,
    Connack,
    Ping,
    Pong,
    Pub,
    Msg,
    Sub,
    Suback,
    Unsub,
    Unsuback,
    Ack,
    Nack,
    CreateStream,
    DeleteStream,
    StreamInfo,
    Success,
    Error,
}

/// The wire code of each frame type.
pub open spec fn frame_code(t: FrameType) -> u8 {
    match t {
        FrameType::Connect => 0x01,
        FrameType::Connack => 0x02,
        FrameType::Ping => 0x10,
        FrameType::Pong => 0x11,
        FrameType::Pub => 0x20,
        FrameType::Msg => 0x21,
        FrameType::Sub => 0x30,
        FrameType::Suback => 0x31,
        FrameType::Unsub => 0x32,
        FrameType::Unsuback => 0x33,
        FrameType::Ack => 0x40,
        FrameType::Nack => 0x41,
        FrameType::CreateStream => 0x50,
        FrameType::DeleteStream => 0x51,
        FrameType::StreamInfo => 0x52,
        FrameType::Success => 0xF0,
        FrameType::Error => 0xE0,
    }
}

/// Some frame type has wire code `b`.
pub open spec fn is_frame_code(b: u8) -> bool {
    exists|t: FrameType| frame_code(t) == b
}

/// Distinct frame types have distinct codes.
pub proof fn lemma_frame_code_injective(a: FrameType, b: FrameType)
    ensures
        frame_code(a) == frame_code(b) ==> a == b,
{
}

/// What reading a frame type from `value` gives: the type with that code,
/// or `UnknownFrameType` when no type has it.
pub open spec fn from_u8_result(value: u8, r: Result<FrameType, ProtocolError>) -> bool {
    match r {
        Ok(t) => frame_code(t) == value,
        Err(ProtocolError::UnknownFrameType(v)) => v == value && !is_frame_code(value),
        Err(_) => false,
    }
}

impl FrameType {
    /// The frame type with wire code `value`.
    pub fn from_u8(value: u8) -> (r: Result<FrameType, ProtocolError>)
        ensures
            from_u8_result(value, r),
    {
        match value {
            0x01 => Ok(FrameType::Connect),
            0x02 => Ok(FrameType::Connack),
            0x10 => Ok(FrameType::Ping),
            0x11 => Ok(FrameType::Pong),
            0x20 => Ok(FrameType::Pub),
            0x21 => Ok(FrameType::Msg),
            0x30 => Ok(FrameType::Sub),
            0x31 => Ok(FrameType::Suback),
            0x32 => Ok(FrameType::Unsub),
            0x33 => Ok(FrameType::Unsuback),
            0x40 => Ok(FrameType::Ack),
            0x41 => Ok(FrameType::Nack),
            0x50 => Ok(FrameType::CreateStream),
            0x51 => Ok(FrameType::DeleteStream),
            0x52 => Ok(FrameType::StreamInfo),
            0xF0 => Ok(FrameType::Success),
            0xE0 => Ok(FrameType::Error),
            _ => {
                proof {
                    assert forall|t: FrameType| frame_code(t) != value by {
                        match t {
                            _ => {},
                        }
                    }
                }
                Err(ProtocolError::UnknownFrameType(value))
            },
        }
    }

    /// The wire code of the frame type.
    pub fn as_u8(self) -> (r: u8)
        ensures
            r == frame_code(self),
    {
        match self {
            FrameType::Connect => 0x01,
            FrameType::Connack => 0x02,
            FrameType::Ping => 0x10,
            FrameType::Pong => 0x11,
            FrameType::Pub => 0x20,
            FrameType::Msg => 0x21,
            FrameType::Sub => 0x30,
            FrameType::Suback => 0x31,
            FrameType::Unsub => 0x32,
            FrameType::Unsuback => 0x33,
            FrameType::Ack => 0x40,
            FrameType::Nack => 0x41,
            FrameType::CreateStream => 0x50,
            FrameType::DeleteStream => 0x51,
            FrameType::StreamInfo => 0x52,
            FrameType::Success => 0xF0,
            FrameType::Error => 0xE0,
        }
    }
}

/// Reading a frame type back from its code gives the frame type.
pub proof fn lemma_frame_type_roundtrip(t: FrameType, r: Result<FrameType, ProtocolError>)
    requires
        from_u8_result(frame_code(t), r),
    ensures
        r == Ok::<FrameType, ProtocolError>(t),
{
    match r {
        Ok(u) => lemma_frame_code_injective(u, t),
        Err(_) => {
            assert(is_frame_code(frame_code(t)));
        },
    }
}

/// The fixed header of a frame.
#[derive(Clone, Debug, PartialEq, Eq, Structural)]
pub struct FrameHeader {
    pub magic: u16,
    pub version: u8,
    pub frame_type: u8,
    pub flags: u16,
    pub correlation_id: u64,
    pub header_len: u32,
    pub payload_len: u32,
}

/// The 22 bytes of a header.
pub open spec fn header_bytes(h: FrameHeader) -> Seq<u8> {
    u16_be(h.magic) + seq![h.version, h.frame_type] + u16_be(h.flags) + u64_be(h.correlation_id)
        + u32_be(h.header_len) + u32_be(h.payload_len)
}

/// The header that the first 22 bytes of `b` spell.
pub open spec fn header_at(b: Seq<u8>) -> FrameHeader {
    FrameHeader {
        magic: read_u16(b, 0),
        version: b[2],
        frame_type: b[3],
        flags: read_u16(b, 4),
        correlation_id: read_u64(b, 6),
        header_len: read_u32(b, 14),
        payload_len: read_u32(b, 18),
    }
}

/// What decoding a header from `b` gives: too few bytes, a wrong magic
/// number, an unsupported version, or the header.
pub open spec fn header_decode_result(b: Seq<u8>, r: Result<FrameHeader, ProtocolError>) -> bool {
    if b.len() < FRAME_HEADER_SIZE {
        r matches Err(ProtocolError::IncompleteFrame { needed, available }) && needed == FRAME_HEADER_SIZE
            && available == b.len()
    } else if read_u16(b, 0) != ZETMQ_MAGIC {
        r matches Err(ProtocolError::InvalidMagic { expected, got }) && expected == ZETMQ_MAGIC && got
            == read_u16(b, 0)
    } else if b[2] != CURRENT_VERSION {
        r matches Err(ProtocolError::UnsupportedVersion(v)) && v == b[2]
    } else {
        r == Ok::<FrameHeader, ProtocolError>(header_at(b))
    }
}

/// The bytes of a header read back are the header.
pub proof fn lemma_header_roundtrip(h: FrameHeader, rest: Seq<u8>)
    ensures
        header_bytes(h).len() == FRAME_HEADER_SIZE,
        header_at(header_bytes(h) + rest) == h,
{
    let b = header_bytes(h) + rest;
    assert(b.subrange(0, 2) =~= u16_be(h.magic));
    lemma_read_u16_be(b, 0, h.magic);
    assert(b.subrange(4, 6) =~= u16_be(h.flags));
    lemma_read_u16_be(b, 4, h.flags);
    assert(b.subrange(6, 14) =~= u64_be(h.correlation_id));
    lemma_read_u64_be(b, 6, h.correlation_id);
    assert(b.subrange(14, 18) =~= u32_be(h.header_len));
    lemma_read_u32_be(b, 14, h.header_len);
    assert(b.subrange(18, 22) =~= u32_be(h.payload_len));
    lemma_read_u32_be(b, 18, h.payload_len);
}

impl FrameHeader {
    /// The header that `new` makes.
    pub open spec fn new_spec(frame_type: u8, correlation_id: u64) -> FrameHeader {
        FrameHeader {
            magic: ZETMQ_MAGIC,
            version: CURRENT_VERSION,
            frame_type,
            flags: 0,
            correlation_id,
            header_len: 0,
            payload_len: 0,
        }
    }

    /// A header of the current version for a frame of type `frame_type`,
    /// with no flags and empty sections.
    pub fn new(frame_type: u8, correlation_id: u64) -> (r: FrameHeader)
        ensures
            r == FrameHeader::new_spec(frame_type, correlation_id),
    {
        FrameHeader {
            magic: ZETMQ_MAGIC,
            version: CURRENT_VERSION,
            frame_type,
            flags: 0,
            correlation_id,
            header_len: 0,
            payload_len: 0,
        }
    }

    /// The same header with the given section lengths.
    pub fn with_payload_size(self, header_len: u32, payload_len: u32) -> (r: FrameHeader)
        ensures
            r == (FrameHeader { header_len, payload_len, ..self }),
    {
        FrameHeader { header_len, payload_len, ..self }
    }

    /// Appends the header's 22 bytes to `buf`.
    pub fn encode(&self, buf: &mut Vec<u8>)
        ensures
            final(buf)@ == old(buf)@ + header_bytes(*self),
    {
        let ghost start = buf@;
        put_u16(buf, self.magic);
        buf.push(self.version);
        buf.push(self.frame_type);
        put_u16(buf, self.flags);
        put_u64(buf, self.correlation_id);
        put_u32(buf, self.header_len);
        put_u32(buf, self.payload_len);
        assert(buf@ =~= start + header_bytes(*self));
    }

    /// Reads a header from the start of `buf`, checking the magic number
    /// and the version.
    pub fn decode(buf: &[u8]) -> (r: Result<FrameHeader, ProtocolError>)
        ensures
            header_decode_result(buf@, r),
    {
        if buf.len() < FRAME_HEADER_SIZE {
            return Err(ProtocolError::IncompleteFrame { needed: FRAME_HEADER_SIZE, available: buf.len() });
        }
        let magic = get_u16(buf, 0);
        if magic != ZETMQ_MAGIC {
            return Err(ProtocolError::InvalidMagic { expected: ZETMQ_MAGIC, got: magic });
        }
        let version = buf[2];
        if version != CURRENT_VERSION {
            return Err(ProtocolError::UnsupportedVersion(version));
        }
        Ok(FrameHeader {
            magic,
            version,
            frame_type: buf[3],
            flags: get_u16(buf, 4),
            correlation_id: get_u64(buf, 6),
            header_len: get_u32(buf, 14),
            payload_len: get_u32(buf, 18),
        })
    }

    /// The size of the whole frame: header, header section and payload.
    pub fn total_frame_size(&self) -> (r: usize)
        requires
            FRAME_HEADER_SIZE + self.header_len + self.payload_len <= usize::MAX,
        ensures
            r == FRAME_HEADER_SIZE + self.header_len + self.payload_len,
    {
        FRAME_HEADER_SIZE + self.header_len as usize + self.payload_len as usize
    }
}

/// Decoding the bytes of a header of this version gives the header back.
pub proof fn lemma_header_decode_encode(h: FrameHeader, rest: Seq<u8>, r: Result<FrameHeader, ProtocolError>)
    requires
        h.magic == ZETMQ_MAGIC,
        h.version == CURRENT_VERSION,
        header_decode_result(header_bytes(h) + rest, r),
    ensures
        r == Ok::<FrameHeader, ProtocolError>(h),
{
    lemma_header_roundtrip(h, rest);
}

/// A frame: its fixed header, its header section and its payload.
pub struct Frame {
    pub header: FrameHeader,
    pub headers: Vec<u8>,
    pub payload: Vec<u8>,
}

/// The bytes of a frame.
pub open spec fn frame_bytes(f: Frame) -> Seq<u8> {
    header_bytes(f.header) + f.headers@ + f.payload@
}

/// The size a header declares for its frame.
pub open spec fn declared_size(h: FrameHeader) -> int {
    FRAME_HEADER_SIZE + h.header_len + h.payload_len
}

/// What `Frame::decode_from` does with the buffer `b` (left as `after`) and
/// the limit `max`: fewer than 22 bytes, or fewer than the declared size,
/// give nothing and leave the buffer; a declared size above the limit is
/// `FrameTooLarge`; otherwise the frame's bytes leave the buffer, and the
/// header is checked and the sections cut out.
pub open spec fn frame_decode_result(b: Seq<u8>, max: usize, after: Seq<u8>, r: Result<Option<Frame>, ProtocolError>) -> bool {
    if b.len() < FRAME_HEADER_SIZE {
        &&& r matches Ok(None)
        &&& after == b
    } else {
        let h = header_at(b);
        let total = declared_size(h);
        if total > max {
            &&& after == b
            &&& r matches Err(ProtocolError::FrameTooLarge { size, limit }) && size == total as usize && limit == max
        } else if b.len() < total {
            &&& r matches Ok(None)
            &&& after == b
        } else {
            &&& after == b.subrange(total, b.len() as int)
            &&& match r {
                Ok(Some(f)) => {
                    &&& header_decode_result(b, Ok(f.header))
                    &&& f.headers@ == b.subrange(FRAME_HEADER_SIZE as int, FRAME_HEADER_SIZE + h.header_len)
                    &&& f.payload@ == b.subrange(FRAME_HEADER_SIZE + h.header_len, total)
                },
                Ok(None) => false,
                Err(e) => header_decode_result(b, Err(e)),
            }
        }
    }
}

/// The frame is self-consistent: current magic and version, and section
/// lengths as declared.
pub open spec fn frame_consistent(f: Frame) -> bool {
    &&& f.header.magic == ZETMQ_MAGIC
    &&& f.header.version == CURRENT_VERSION
    &&& f.header.header_len == f.headers@.len()
    &&& f.header.payload_len == f.payload@.len()
}

/// Frame round trip: a consistent frame within the limit, encoded and
/// followed by any bytes, decodes to the same frame and leaves those bytes.
pub proof fn lemma_frame_roundtrip(f: Frame, rest: Seq<u8>, max: usize, after: Seq<u8>, r: Result<Option<Frame>, ProtocolError>)
    requires
        frame_consistent(f),
        declared_size(f.header) <= max,
        frame_decode_result(frame_bytes(f) + rest, max, after, r),
    ensures
        after == rest,
        r matches Ok(Some(g)) && g.header == f.header && g.headers@ == f.headers@ && g.payload@ == f.payload@,
{
    let b = frame_bytes(f) + rest;
    lemma_header_roundtrip(f.header, f.headers@ + f.payload@ + rest);
    assert(b =~= header_bytes(f.header) + (f.headers@ + f.payload@ + rest));
    let total = declared_size(f.header);
    assert(b.subrange(total, b.len() as int) =~= rest);
    assert(b.subrange(FRAME_HEADER_SIZE as int, FRAME_HEADER_SIZE + f.header.header_len) =~= f.headers@);
    assert(b.subrange(FRAME_HEADER_SIZE + f.header.header_len, total) =~= f.payload@);
}

impl Frame {
    /// An empty frame of type `frame_type`.
    pub fn new(frame_type: FrameType, correlation_id: u64) -> (r: Frame)
        ensures
            r.header == FrameHeader::new_spec(frame_code(frame_type), correlation_id),
            r.headers@ == Seq::<u8>::empty(),
            r.payload@ == Seq::<u8>::empty(),
    {
        let header = FrameHeader::new(frame_type.as_u8(), correlation_id);
        Frame { header, headers: Vec::new(), payload: Vec::new() }
    }

    /// The same frame with `payload`, its length recorded in the header.
    pub fn with_payload(self, payload: Vec<u8>) -> (r: Frame)
        ensures
            r.header == (FrameHeader { payload_len: payload@.len() as u32, ..self.header }),
            r.headers@ == self.headers@,
            r.payload@ == payload@,
    {
        let mut f = self;
        f.header.payload_len = payload.len() as u32;
        f.payload = payload;
        f
    }

    /// The same frame with the header section `headers`, its length
    /// recorded in the header.
    pub fn with_headers(self, headers: Vec<u8>) -> (r: Frame)
        ensures
            r.header == (FrameHeader { header_len: headers@.len() as u32, ..self.header }),
            r.headers@ == headers@,
            r.payload@ == self.payload@,
    {
        let mut f = self;
        f.header.header_len = headers.len() as u32;
        f.headers = headers;
        f
    }

    /// The frame's type.
    pub fn frame_type(&self) -> (r: Result<FrameType, ProtocolError>)
        ensures
            from_u8_result(self.header.frame_type, r),
    {
        FrameType::from_u8(self.header.frame_type)
    }

    /// The frame's bytes.
    pub fn encode(&self) -> (r: Vec<u8>)
        ensures
            r@ == frame_bytes(*self),
    {
        let mut buf: Vec<u8> = Vec::new();
        self.encode_into(&mut buf);
        assert(buf@ =~= frame_bytes(*self));
        buf
    }

    /// Appends the frame's bytes to `buf`.
    pub fn encode_into(&self, buf: &mut Vec<u8>)
        ensures
            final(buf)@ == old(buf)@ + frame_bytes(*self),
    {
        let ghost start = buf@;
        self.header.encode(buf);
        put_slice(buf, self.headers.as_slice());
        put_slice(buf, self.payload.as_slice());
        assert(buf@ =~= start + frame_bytes(*self));
    }

    /// Takes one whole frame from the front of `buf`, if it holds one.
    pub fn decode_from(buf: &mut Vec<u8>, max_frame_size: usize) -> (r: Result<Option<Frame>, ProtocolError>)
        ensures
            frame_decode_result(old(buf)@, max_frame_size, final(buf)@, r),
    {
        if buf.len() < FRAME_HEADER_SIZE {
            return Ok(None);
        }
        let header_len = get_u32(buf.as_slice(), 14);
        let payload_len = get_u32(buf.as_slice(), 18);
        let total: u64 = 22u64 + header_len as u64 + payload_len as u64;
        if total > max_frame_size as u64 {
            return Err(ProtocolError::FrameTooLarge { size: total as usize, limit: max_frame_size });
        }
        let total = total as usize;
        if buf.len() < total {
            return Ok(None);
        }
        let bytes = copy_range(buf.as_slice(), 0, total);
        let rest = copy_range(buf.as_slice(), total, buf.len());
        *buf = rest;
        let header = match FrameHeader::decode(bytes.as_slice()) {
            Ok(h) => h,
            Err(e) => {
                proof {
                    assert(bytes@.subrange(0, 22) =~= old(buf)@.subrange(0, 22));
                    assert(bytes@[2] == old(buf)@[2]);
                }
                return Err(e);
            },
        };
        let hl = header_len as usize;
        let headers = copy_range(bytes.as_slice(), FRAME_HEADER_SIZE, FRAME_HEADER_SIZE + hl);
        let payload = copy_range(bytes.as_slice(), FRAME_HEADER_SIZE + hl, total);
        proof {
            assert(headers@ =~= old(buf)@.subrange(FRAME_HEADER_SIZE as int, FRAME_HEADER_SIZE + hl));
            assert(payload@ =~= old(buf)@.subrange(FRAME_HEADER_SIZE + hl, total as int));
        }
        Ok(Some(Frame { header, headers, payload }))
    }
}

} // verus!
