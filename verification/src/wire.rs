//! The server's fast paths over the read buffer: recognising PUB frames
//! in place, cutting their payloads apart, and writing MSG frames.

use vstd::prelude::*;
use vstd::string::*;
use vstd::utf8::*;

use crate::codec::{copy_range, get_u16, get_u32, get_u64, put_slice, put_u16, put_u64, read_u16, read_u32, read_u64, u16_be, u64_be};
use crate::command::PublishCommand;
use crate::delivery::DeliveryMessage;
use crate::error::ProtocolError;
use crate::frame::{CURRENT_VERSION, FRAME_HEADER_SIZE, Frame, FrameHeader, FrameType, ZETMQ_MAGIC, frame_bytes, frame_code, header_bytes};
use crate::headers::{decode_headers, decode_headers_spec, encode_headers, encoded_headers_len, entries_len, headers_bytes, headers_fit};
use crate::message::{HeaderMap, headers_view};

verus! {

/// Where the parts of a PUB frame lie in the read buffer.
pub struct PubFrameLayout {
    pub correlation_id: u64,
    pub header_start: usize,
    pub header_end: usize,
    pub payload_start: usize,
    pub payload_end: usize,
    pub total: usize,
}

/// Where the parts of a PUB payload lie, as start and end positions.
pub struct PublishPayloadLayout {
    pub subject: (usize, usize),
    pub reply_to: Option<(usize, usize)>,
    pub payload: (usize, usize),
}

/// The size that the header at the start of `b` declares for its frame.
pub open spec fn declared_total(b: Seq<u8>) -> int {
    FRAME_HEADER_SIZE + read_u32(b, 14) + read_u32(b, 18)
}

/// Why a buffered frame is no PUB frame the fast path can take.
pub enum PeekError {
    TooLarge(int),
    BadMagic(u16),
    BadVersion(u8),
    NotPub(u8),
}

/// Checking the frame at the start of `b` against the limit `max`: nothing
/// yet while fewer than 22 bytes or fewer than the declared size are
/// buffered (the size limit is checked first), then the magic number, the
/// version and the PUB type.
pub open spec fn peek_pub_spec(b: Seq<u8>, max: usize) -> Result<Option<int>, PeekError> {
    if b.len() < FRAME_HEADER_SIZE {
        Ok(None)
    } else if declared_total(b) > max {
        Err(PeekError::TooLarge(declared_total(b)))
    } else if b.len() < declared_total(b) {
        Ok(None)
    } else if read_u16(b, 0) != ZETMQ_MAGIC {
        Err(PeekError::BadMagic(read_u16(b, 0)))
    } else if b[2] != CURRENT_VERSION {
        Err(PeekError::BadVersion(b[2]))
    } else if b[3] != frame_code(FrameType::Pub) {
        Err(PeekError::NotPub(b[3]))
    } else {
        Ok(Some(declared_total(b)))
    }
}

/// The protocol error that reports a check's failure.
pub open spec fn peek_error_is(e: PeekError, max: usize, r: ProtocolError) -> bool {
    match e {
        PeekError::TooLarge(t) => r matches ProtocolError::FrameTooLarge { size, limit } && size == t as usize && limit == max,
        PeekError::BadMagic(m) => r matches ProtocolError::InvalidMagic { expected, got } && expected == ZETMQ_MAGIC && got == m,
        PeekError::BadVersion(v) => r matches ProtocolError::UnsupportedVersion(x) && x == v,
        PeekError::NotPub(t) => r matches ProtocolError::UnknownFrameType(x) && x == t,
    }
}

/// Whether the buffer starts with the header of a PUB frame.
pub fn next_frame_is_pub(buf: &[u8]) -> (r: bool)
    ensures
        r == (buf@.len() >= FRAME_HEADER_SIZE && buf@[3] == frame_code(FrameType::Pub)),
{
    buf.len() >= FRAME_HEADER_SIZE && buf[3] == FrameType::Pub.as_u8()
}

/// Checks the frame at the start of the buffer; see `peek_pub_spec`.
fn check_pub_frame(buf: &[u8], max_frame_size: usize) -> (r: Result<Option<usize>, ProtocolError>)
    ensures
        match (peek_pub_spec(buf@, max_frame_size), r) {
            (Ok(None), Ok(None)) => true,
            (Ok(Some(t)), Ok(Some(u))) => t == u,
            (Err(e), Err(x)) => peek_error_is(e, max_frame_size, x),
            _ => false,
        },
{
    if buf.len() < FRAME_HEADER_SIZE {
        return Ok(None);
    }
    let header_len = get_u32(buf, 14);
    let payload_len = get_u32(buf, 18);
    let total: u64 = 22u64 + header_len as u64 + payload_len as u64;
    if total > max_frame_size as u64 {
        return Err(ProtocolError::FrameTooLarge { size: total as usize, limit: max_frame_size });
    }
    let total = total as usize;
    if buf.len() < total {
        return Ok(None);
    }
    let magic = get_u16(buf, 0);
    if magic != ZETMQ_MAGIC {
        return Err(ProtocolError::InvalidMagic { expected: ZETMQ_MAGIC, got: magic });
    }
    let version = buf[2];
    if version != CURRENT_VERSION {
        return Err(ProtocolError::UnsupportedVersion(version));
    }
    if buf[3] != FrameType::Pub.as_u8() {
        return Err(ProtocolError::UnknownFrameType(buf[3]));
    }
    Ok(Some(total))
}

/// The layout of the PUB frame at the start of the buffer, once it is
/// complete; see `peek_pub_spec` for the checks.
pub fn peek_pub_frame_layout(buf: &[u8], max_frame_size: usize) -> (r: Result<Option<PubFrameLayout>, ProtocolError>)
    ensures
        match (peek_pub_spec(buf@, max_frame_size), r) {
            (Ok(None), Ok(None)) => true,
            (Ok(Some(t)), Ok(Some(l))) => {
                &&& l.total == t
                &&& l.correlation_id == read_u64(buf@, 6)
                &&& l.header_start == FRAME_HEADER_SIZE
                &&& l.header_end == FRAME_HEADER_SIZE + read_u32(buf@, 14)
                &&& l.payload_start == l.header_end
                &&& l.payload_end == l.payload_start + read_u32(buf@, 18)
                &&& l.payload_end == l.total
                &&& l.total <= buf@.len()
            },
            (Err(e), Err(x)) => peek_error_is(e, max_frame_size, x),
            _ => false,
        },
{
    let total = match check_pub_frame(buf, max_frame_size) {
        Ok(Some(t)) => t,
        Ok(None) => {
            return Ok(None);
        },
        Err(e) => {
            return Err(e);
        },
    };
    let header_len = get_u32(buf, 14) as usize;
    let payload_len = get_u32(buf, 18) as usize;
    let correlation_id = get_u64(buf, 6);
    let header_start = FRAME_HEADER_SIZE;
    let header_end = header_start + header_len;
    let payload_start = header_end;
    let payload_end = payload_start + payload_len;
    Ok(Some(PubFrameLayout { correlation_id, header_start, header_end, payload_start, payload_end, total }))
}

/// The size of the PUB frame at the start of the buffer, once it is
/// complete; see `peek_pub_spec` for the checks.
pub fn peek_pub_frame_total(buf: &[u8], max_frame_size: usize) -> (r: Result<Option<usize>, ProtocolError>)
    ensures
        match (peek_pub_spec(buf@, max_frame_size), r) {
            (Ok(None), Ok(None)) => true,
            (Ok(Some(t)), Ok(Some(u))) => t == u,
            (Err(e), Err(x)) => peek_error_is(e, max_frame_size, x),
            _ => false,
        },
{
    check_pub_frame(buf, max_frame_size)
}

/// The layout of a PUB payload: the subject after its 16-bit length, then
/// the reply subject after its 16-bit length (absent when that length is
/// zero), then the data up to the end.
pub open spec fn publish_layout_spec(p: Seq<u8>) -> Option<((int, int), Option<(int, int)>, (int, int))> {
    if p.len() < 2 {
        None
    } else {
        let se = 2 + read_u16(p, 0);
        if p.len() < se + 2 {
            None
        } else {
            let re = se + 2 + read_u16(p, se);
            if p.len() < re {
                None
            } else {
                Some(((2, se), if read_u16(p, se) > 0 { Some((se + 2, re)) } else { None }, (re, p.len() as int)))
            }
        }
    }
}

/// The layout as positions.
pub open spec fn layout_view(l: PublishPayloadLayout) -> ((int, int), Option<(int, int)>, (int, int)) {
    (
        (l.subject.0 as int, l.subject.1 as int),
        match l.reply_to {
            Some(r) => Some((r.0 as int, r.1 as int)),
            None => None,
        },
        (l.payload.0 as int, l.payload.1 as int),
    )
}

/// Cuts a PUB payload into subject, reply subject and data; lengths that
/// run past the end are `DecodingError`s.
pub fn parse_publish_payload(payload: &[u8]) -> (r: Result<PublishPayloadLayout, ProtocolError>)
    ensures
        match r {
            Ok(l) => publish_layout_spec(payload@) == Some(layout_view(l)),
            Err(ProtocolError::DecodingError(_)) => publish_layout_spec(payload@) is None,
            Err(_) => false,
        },
{
    if payload.len() < 2 {
        return Err(ProtocolError::DecodingError("PUB frame too short".to_owned()));
    }
    let subject_len = get_u16(payload, 0) as usize;
    let subject_start: usize = 2;
    let subject_end = subject_start + subject_len;
    if payload.len() < subject_end {
        return Err(ProtocolError::DecodingError("PUB subject truncated".to_owned()));
    }
    if payload.len() < subject_end + 2 {
        return Err(ProtocolError::DecodingError("PUB reply length missing".to_owned()));
    }
    let reply_len = get_u16(payload, subject_end) as usize;
    let reply_start = subject_end + 2;
    let reply_end = reply_start + reply_len;
    if payload.len() < reply_end {
        return Err(ProtocolError::DecodingError("PUB reply truncated".to_owned()));
    }
    Ok(PublishPayloadLayout {
        subject: (subject_start, subject_end),
        reply_to: if reply_len > 0 { Some((reply_start, reply_end)) } else { None },
        payload: (reply_end, payload.len()),
    })
}

/// The layout lies within the first `n` bytes, its parts in order.
pub open spec fn layout_fits(l: PubFrameLayout, n: int) -> bool {
    &&& l.header_start <= l.header_end <= l.total
    &&& l.payload_start <= l.payload_end <= l.total
    &&& l.total <= n
}

/// What taking a PUB command out of the buffer gives: the frame's bytes
/// leave the buffer; then the payload is cut apart and the header section,
/// when there is one, decoded.
pub open spec fn take_publish_spec(b: Seq<u8>, l: PubFrameLayout, r: Result<(PublishCommand, u64), ProtocolError>) -> bool {
    let payload = b.subrange(l.payload_start as int, l.payload_end as int);
    let hdr = b.subrange(l.header_start as int, l.header_end as int);
    match publish_layout_spec(payload) {
        None => r matches Err(ProtocolError::DecodingError(_)),
        Some((s, rt, d)) => if hdr.len() > 0 && decode_headers_spec(hdr) is None {
            r matches Err(ProtocolError::DecodingError(_))
        } else {
            r matches Ok((c, corr)) && {
                &&& corr == l.correlation_id
                &&& c.subject@ == payload.subrange(s.0, s.1)
                &&& c.payload@ == payload.subrange(d.0, d.1)
                &&& match rt {
                    Some(x) => c.reply_to matches Some(v) && v@ == payload.subrange(x.0, x.1),
                    None => c.reply_to is None,
                }
                &&& if hdr.len() == 0 {
                    c.headers is None
                } else {
                    c.headers matches Some(h) && decode_headers_spec(hdr) == Some(headers_view(h))
                }
            }
        },
    }
}

/// Takes the PUB frame laid out by `layout` off the front of the buffer and
/// decodes its command and correlation id.
pub fn decode_publish_command_from_buf(read_buf: &mut Vec<u8>, layout: PubFrameLayout) -> (r: Result<(PublishCommand, u64), ProtocolError>)
    requires
        layout_fits(layout, old(read_buf)@.len() as int),
    ensures
        final(read_buf)@ == old(read_buf)@.subrange(layout.total as int, old(read_buf)@.len() as int),
        take_publish_spec(old(read_buf)@, layout, r),
{
    let frame_bytes = copy_range(read_buf.as_slice(), 0, layout.total);
    let rest = copy_range(read_buf.as_slice(), layout.total, read_buf.len());
    let ghost b = read_buf@;
    *read_buf = rest;
    let header_bytes = copy_range(frame_bytes.as_slice(), layout.header_start, layout.header_end);
    let payload_bytes = copy_range(frame_bytes.as_slice(), layout.payload_start, layout.payload_end);
    proof {
        assert(header_bytes@ =~= b.subrange(layout.header_start as int, layout.header_end as int));
        assert(payload_bytes@ =~= b.subrange(layout.payload_start as int, layout.payload_end as int));
    }
    let pl = match parse_publish_payload(payload_bytes.as_slice()) {
        Ok(l) => l,
        Err(e) => {
            return Err(e);
        },
    };
    let headers = if header_bytes.len() == 0 {
        None
    } else {
        match decode_headers(header_bytes.as_slice()) {
            Ok(h) => Some(h),
            Err(e) => {
                return Err(e);
            },
        }
    };
    let subject = copy_range(payload_bytes.as_slice(), pl.subject.0, pl.subject.1);
    let payload = copy_range(payload_bytes.as_slice(), pl.payload.0, pl.payload.1);
    let reply_to = match pl.reply_to {
        Some((a, z)) => Some(copy_range(payload_bytes.as_slice(), a, z)),
        None => None,
    };
    Ok((PublishCommand { subject, payload, reply_to, headers }, layout.correlation_id))
}

/// The optional bytes of a reply subject on the wire: its 16-bit length,
/// then its bytes; two zero bytes without one.
pub open spec fn reply_field(reply: Option<Seq<char>>) -> Seq<u8> {
    match reply {
        Some(r) => u16_be(encode_utf8(r).len() as u16) + encode_utf8(r),
        None => u16_be(0),
    }
}

/// The payload of a MSG frame: the subject's 16-bit length and bytes, the
/// reply field, the subscription id, then the data.
pub open spec fn msg_payload_bytes(subject: Seq<char>, reply: Option<Seq<char>>, sub_id: u64, data: Seq<u8>) -> Seq<u8> {
    u16_be(encode_utf8(subject).len() as u16) + encode_utf8(subject) + reply_field(reply) + u64_be(sub_id) + data
}

/// The text of a delivery's reply subject.
pub open spec fn reply_text(m: DeliveryMessage) -> Option<Seq<char>> {
    match m.reply_to {
        Some(r) => Some(r@.raw),
        None => None,
    }
}

/// The header section of a delivery: the encoded headers, or nothing.
pub open spec fn msg_header_section(m: DeliveryMessage) -> Seq<u8> {
    match m.headers {
        Some(h) => headers_bytes(headers_view(h)),
        None => Seq::empty(),
    }
}

/// The bytes of the MSG frame for a delivery: a header of type MSG whose
/// correlation id is the subscription id and whose lengths are the
/// sections' (as 32-bit values), the header section, and the payload.
pub open spec fn msg_frame_bytes(m: DeliveryMessage) -> Seq<u8> {
    let payload = msg_payload_bytes(m.subject@.raw, reply_text(m), m.subscription_id.0, m.payload@);
    let hs = msg_header_section(m);
    header_bytes(FrameHeader {
        header_len: hs.len() as u32,
        payload_len: payload.len() as u32,
        ..FrameHeader::new_spec(frame_code(FrameType::Msg), m.subscription_id.0)
    }) + hs + payload
}

/// The sizes of a delivery's sections fit a `usize`.
pub open spec fn msg_sizes_fit(m: DeliveryMessage) -> bool {
    &&& 2 + encode_utf8(m.subject@.raw).len() + 2 + (match reply_text(m) {
        Some(r) => encode_utf8(r).len() as int,
        None => 0int,
    }) + 8 + m.payload@.len() <= usize::MAX
    &&& match m.headers {
        Some(h) => 2 + entries_len(headers_view(h)) <= usize::MAX,
        None => true,
    }
}

/// Whether every section length of a delivery's MSG frame fits a `usize`,
/// so that the frame can be written.
pub fn msg_fits(m: &DeliveryMessage) -> (r: bool)
    ensures
        r == msg_sizes_fit(*m),
{
    let subj = m.subject.as_str().as_bytes().len();
    let reply: usize = match &m.reply_to {
        Some(x) => x.as_str().as_bytes().len(),
        None => 0,
    };
    let body = match subj.checked_add(4) {
        Some(a) => match a.checked_add(reply) {
            Some(b) => match b.checked_add(8) {
                Some(c) => c.checked_add(m.payload.len()),
                None => None,
            },
            None => None,
        },
        None => None,
    };
    if body.is_none() {
        return false;
    }
    match &m.headers {
        Some(h) => headers_fit(h),
        None => true,
    }
}

/// Writes the MSG frame for a delivery to `buf`.
pub fn encode_msg_into(msg: &DeliveryMessage, buf: &mut Vec<u8>)
    requires
        msg_sizes_fit(*msg),
    ensures
        final(buf)@ == old(buf)@ + msg_frame_bytes(*msg),
{
    let ghost start = buf@;
    let subj_bytes = msg.subject.as_str().as_bytes();
    let reply_len: usize = match &msg.reply_to {
        Some(r) => r.as_str().len(),
        None => 0,
    };
    let payload_len = 2 + subj_bytes.len() + 2 + reply_len + 8 + msg.payload.len();
    let headers_len: usize = match &msg.headers {
        Some(h) => encoded_headers_len(h),
        None => 0,
    };
    let header = FrameHeader::new(FrameType::Msg.as_u8(), msg.subscription_id.0).with_payload_size(
        headers_len as u32,
        payload_len as u32,
    );
    header.encode(buf);
    match &msg.headers {
        Some(h) => encode_headers(h, buf),
        None => {},
    }
    let ghost mid = buf@;
    put_u16(buf, subj_bytes.len() as u16);
    put_slice(buf, subj_bytes);
    match &msg.reply_to {
        Some(r) => {
            let reply_bytes = r.as_str().as_bytes();
            put_u16(buf, reply_bytes.len() as u16);
            put_slice(buf, reply_bytes);
        },
        None => {
            put_u16(buf, 0);
        },
    }
    put_u64(buf, msg.subscription_id.0);
    put_slice(buf, msg.payload.as_slice());
    proof {
        let payload = msg_payload_bytes(msg.subject@.raw, reply_text(*msg), msg.subscription_id.0, msg.payload@);
        assert(buf@ =~= mid + payload);
        assert(payload.len() == payload_len);
        assert(buf@ =~= start + msg_frame_bytes(*msg));
    }
}

/// A frame queued for a connection: prepared, or a delivery to be written
/// as a MSG frame.
pub enum OutboundFrame {
    Raw(Frame),
    Msg(DeliveryMessage),
}

/// Writes a queued frame to `buf`.
pub fn encode_outbound(outbound: OutboundFrame, buf: &mut Vec<u8>)
    requires
        outbound matches OutboundFrame::Msg(m) ==> msg_sizes_fit(m),
    ensures
        match outbound {
            OutboundFrame::Raw(f) => final(buf)@ == old(buf)@ + frame_bytes(f),
            OutboundFrame::Msg(m) => final(buf)@ == old(buf)@ + msg_frame_bytes(m),
        },
{
    match outbound {
        OutboundFrame::Raw(frame) => frame.encode_into(buf),
        OutboundFrame::Msg(msg) => encode_msg_into(&msg, buf),
    }
}

/// The ERROR frame that refuses a publish.
pub fn publish_denied_frame(correlation_id: u64) -> (r: Frame)
    ensures
        crate::dispatcher::is_reply(r, FrameType::Error, correlation_id, encode_utf8("permission denied for publish"@)),
{
    crate::dispatcher::text_reply(FrameType::Error, correlation_id, "permission denied for publish")
}

} // verus!
