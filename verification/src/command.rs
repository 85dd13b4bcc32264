//! Commands carried by frames: CONNECT with its credentials, PUB, SUB,
//! UNSUB and PING, and their decoding from frames.

use vstd::prelude::*;
use vstd::string::*;
use vstd::utf8::*;

use crate::codec::{copy_range, get_u16, get_u64, lemma_read_u16_be, put_slice, put_u16, read_u16, read_u64, u16_be};
use crate::error::ProtocolError;
use crate::frame::{Frame, FrameType, frame_code, from_u8_result, is_frame_code};
use crate::headers::{decode_headers, decode_headers_spec};
use crate::message::{HeaderMap, headers_view};
use crate::stream_cmd::{AckCommand, CreateStreamCommand, CreateStreamView, DeleteStreamCommand, NackCommand,
    create_stream_spec, delete_stream_spec, seq_ack_spec};
use crate::text::{concat_text, decode_text, lemma_text_roundtrip, lossy_text, text_then_number};

verus! {

/// Credentials sent in a CONNECT frame.
#[derive(Clone, Debug, PartialEq, Eq)]
pub enum AuthInfo {
    Anonymous,
    Token(String),
    UserPass { username: String, password: String },
}

/// The text of credentials.
pub enum AuthView {
    Anonymous,
    Token(Seq<char>),
    UserPass(Seq<char>, Seq<char>),
}

impl View for AuthInfo {
    type V = AuthView;

    open spec fn view(&self) -> AuthView {
        match self {
            AuthInfo::Anonymous => AuthView::Anonymous,
            AuthInfo::Token(t) => AuthView::Token(t@),
            AuthInfo::UserPass { username, password } => AuthView::UserPass(username@, password@),
        }
    }
}

/// The byte that names the kind of credentials.
pub open spec fn auth_type_of(a: AuthView) -> u8 {
    match a {
        AuthView::Anonymous => 0,
        AuthView::Token(_) => 1,
        AuthView::UserPass(_, _) => 2,
    }
}

/// A text field on the wire: its UTF-8 length as a big-endian `u16`, then the bytes.
pub open spec fn str_field(s: Seq<char>) -> Seq<u8> {
    u16_be(encode_utf8(s).len() as u16) + encode_utf8(s)
}

/// The bytes of credentials after the type byte.
pub open spec fn auth_fields(a: AuthView) -> Seq<u8> {
    match a {
        AuthView::Anonymous => Seq::empty(),
        AuthView::Token(t) => str_field(t),
        AuthView::UserPass(u, p) => str_field(u) + str_field(p),
    }
}

/// The credentials that type byte `t` and the bytes `d` after it spell, or
/// nothing when a length runs past the end or the type is unknown.
pub open spec fn auth_decode_spec(t: u8, d: Seq<u8>) -> Option<AuthView> {
    if t == 0 {
        Some(AuthView::Anonymous)
    } else if t == 1 {
        if d.len() < 2 {
            None
        } else if d.len() < 2 + read_u16(d, 0) {
            None
        } else {
            Some(AuthView::Token(lossy_text(d.subrange(2, 2 + read_u16(d, 0)))))
        }
    } else if t == 2 {
        if d.len() < 2 {
            None
        } else {
            let ul = read_u16(d, 0) as int;
            if d.len() < 2 + ul + 2 {
                None
            } else {
                let pl = read_u16(d, 2 + ul) as int;
                if d.len() < 4 + ul + pl {
                    None
                } else {
                    Some(AuthView::UserPass(lossy_text(d.subrange(2, 2 + ul)), lossy_text(d.subrange(4 + ul, 4 + ul + pl))))
                }
            }
        }
    } else {
        None
    }
}

/// Appends a text field to `buf`.
fn put_str_field(buf: &mut Vec<u8>, s: &String)
    ensures
        final(buf)@ == old(buf)@ + str_field(s@),
{
    let bytes = s.as_str().as_bytes();
    let ghost start = buf@;
    put_u16(buf, bytes.len() as u16);
    put_slice(buf, bytes);
    assert(buf@ =~= start + str_field(s@));
}

impl AuthInfo {
    /// The byte that names the kind of credentials.
    pub fn type_byte(&self) -> (r: u8)
        ensures
            r == auth_type_of(self@),
    {
        match self {
            AuthInfo::Anonymous => 0,
            AuthInfo::Token(_) => 1,
            AuthInfo::UserPass { .. } => 2,
        }
    }

    /// The bytes of the credentials after the type byte.
    pub fn encode_fields(&self) -> (r: Vec<u8>)
        ensures
            r@ == auth_fields(self@),
    {
        let mut buf: Vec<u8> = Vec::new();
        match self {
            AuthInfo::Anonymous => {},
            AuthInfo::Token(token) => {
                put_str_field(&mut buf, token);
            },
            AuthInfo::UserPass { username, password } => {
                put_str_field(&mut buf, username);
                put_str_field(&mut buf, password);
            },
        }
        assert(buf@ =~= auth_fields(self@));
        buf
    }

    /// Reads credentials of type `auth_type` from `data`, the bytes after
    /// the type byte.
    pub fn decode(auth_type: u8, data: &[u8]) -> (r: Result<AuthInfo, String>)
        ensures
            match r {
                Ok(a) => auth_decode_spec(auth_type, data@) == Some(a@),
                Err(_) => auth_decode_spec(auth_type, data@) is None,
            },
    {
        if auth_type == 0 {
            Ok(AuthInfo::Anonymous)
        } else if auth_type == 1 {
            if data.len() < 2 {
                return Err("token auth: payload too short".to_owned());
            }
            let len = get_u16(data, 0) as usize;
            if data.len() < 2 + len {
                return Err("token auth: token truncated".to_owned());
            }
            let bytes = copy_range(data, 2, 2 + len);
            Ok(AuthInfo::Token(decode_text(bytes.as_slice())))
        } else if auth_type == 2 {
            if data.len() < 2 {
                return Err("userpass auth: payload too short".to_owned());
            }
            let u_len = get_u16(data, 0) as usize;
            if data.len() < 2 + u_len + 2 {
                return Err("userpass auth: username truncated".to_owned());
            }
            let ub = copy_range(data, 2, 2 + u_len);
            let username = decode_text(ub.as_slice());
            let p_len = get_u16(data, 2 + u_len) as usize;
            if data.len() < 4 + u_len + p_len {
                return Err("userpass auth: password truncated".to_owned());
            }
            let pb = copy_range(data, 4 + u_len, 4 + u_len + p_len);
            let password = decode_text(pb.as_slice());
            Ok(AuthInfo::UserPass { username, password })
        } else {
            Err(text_then_number("unknown auth type: ", auth_type as u64))
        }
    }
}

/// Every text of the credentials fits a 16-bit length.
pub open spec fn auth_fits(a: AuthView) -> bool {
    match a {
        AuthView::Anonymous => true,
        AuthView::Token(t) => encode_utf8(t).len() < 0x10000,
        AuthView::UserPass(u, p) => encode_utf8(u).len() < 0x10000 && encode_utf8(p).len() < 0x10000,
    }
}

/// Credentials round trip: the fields of credentials whose texts fit
/// 16-bit lengths, read back under their type byte, are the credentials.
pub proof fn lemma_auth_roundtrip(a: AuthView, tail: Seq<u8>)
    requires
        auth_fits(a),
    ensures
        auth_decode_spec(auth_type_of(a), auth_fields(a) + tail) == Some(a),
{
    let d = auth_fields(a) + tail;
    match a {
        AuthView::Anonymous => {},
        AuthView::Token(t) => {
            let tb = encode_utf8(t);
            let n = tb.len() as int;
            assert(d.subrange(0, 2) =~= u16_be(tb.len() as u16));
            lemma_read_u16_be(d, 0, tb.len() as u16);
            assert(d.subrange(2, 2 + n) =~= tb);
            lemma_text_roundtrip(t);
        },
        AuthView::UserPass(u, p) => {
            let ub = encode_utf8(u);
            let pb = encode_utf8(p);
            let un = ub.len() as int;
            let pn = pb.len() as int;
            assert(d.subrange(0, 2) =~= u16_be(ub.len() as u16));
            lemma_read_u16_be(d, 0, ub.len() as u16);
            assert(d.subrange(2, 2 + un) =~= ub);
            assert(d.subrange(2 + un, 4 + un) =~= u16_be(pb.len() as u16));
            lemma_read_u16_be(d, 2 + un, pb.len() as u16);
            assert(d.subrange(4 + un, 4 + un + pn) =~= pb);
            lemma_text_roundtrip(u);
            lemma_text_roundtrip(p);
        },
    }
}

/// A CONNECT command.
pub struct ConnectCommand {
    pub client_name: Option<String>,
    pub protocol_version: u8,
    pub auth: AuthInfo,
}

/// The CONNECT payload of credentials: the type byte, then the fields;
/// none without credentials.
pub open spec fn connect_payload(a: AuthView) -> Option<Seq<u8>> {
    match a {
        AuthView::Anonymous => None,
        _ => Some(seq![auth_type_of(a)] + auth_fields(a)),
    }
}

impl ConnectCommand {
    /// A CONNECT of the given version, without name or credentials.
    pub fn new(protocol_version: u8) -> (r: ConnectCommand)
        ensures
            r.client_name is None,
            r.protocol_version == protocol_version,
            r.auth@ == AuthView::Anonymous,
    {
        ConnectCommand { client_name: None, protocol_version, auth: AuthInfo::Anonymous }
    }

    /// The CONNECT payload: the credentials' type byte and fields, or
    /// nothing without credentials.
    pub fn encode_payload(&self) -> (r: Option<Vec<u8>>)
        ensures
            match r {
                Some(v) => connect_payload(self.auth@) == Some(v@),
                None => connect_payload(self.auth@) is None,
            },
    {
        match &self.auth {
            AuthInfo::Anonymous => None,
            auth => {
                let mut buf: Vec<u8> = Vec::new();
                buf.push(auth.type_byte());
                let fields = auth.encode_fields();
                put_slice(&mut buf, fields.as_slice());
                assert(buf@ =~= seq![auth_type_of(auth@)] + auth_fields(auth@));
                Some(buf)
            },
        }
    }
}

/// A PUB command: subject, payload, optional reply subject and headers,
/// subject and reply as raw bytes.
pub struct PublishCommand {
    pub subject: Vec<u8>,
    pub payload: Vec<u8>,
    pub reply_to: Option<Vec<u8>>,
    pub headers: Option<HeaderMap>,
}

/// A SUB command.
pub struct SubscribeCommand {
    pub subject_pattern: String,
    pub queue_group: Option<String>,
}

/// An UNSUB command.
pub struct UnsubscribeCommand {
    pub subscription_id: u64,
}

/// A PING command.
pub struct PingCommand;

/// A command decoded from a client frame.
pub enum BrokerCommand {
    Connect(ConnectCommand),
    Publish(PublishCommand),
    Subscribe(SubscribeCommand),
    Unsubscribe(UnsubscribeCommand),
    Ping(PingCommand),
    CreateStream(CreateStreamCommand),
    DeleteStream(DeleteStreamCommand),
    Ack(AckCommand),
    Nack(NackCommand),
}

/// The parts of a PUB payload.
pub struct PubView {
    pub subject: Seq<u8>,
    pub reply_to: Option<Seq<u8>>,
    pub payload: Seq<u8>,
}

/// What a PUB payload holds: the subject (after its 16-bit length); then,
/// when two more bytes follow, a 16-bit reply length, the reply subject
/// when that length is non-zero and fits, and the message data after it.
pub open spec fn pub_payload_spec(p: Seq<u8>) -> Option<PubView> {
    if p.len() < 2 {
        None
    } else {
        let sl = read_u16(p, 0) as int;
        if p.len() < 2 + sl {
            None
        } else {
            let rest = p.subrange(2 + sl, p.len() as int);
            let (reply, ds) = if rest.len() >= 2 {
                let rl = read_u16(rest, 0) as int;
                if rest.len() >= 2 + rl && rl > 0 {
                    (Some(p.subrange(2 + sl + 2, 2 + sl + 2 + rl)), 2 + rl)
                } else {
                    (None, 2int)
                }
            } else {
                (None, 0int)
            };
            let off = 2 + sl + ds;
            Some(PubView {
                subject: p.subrange(2, 2 + sl),
                reply_to: reply,
                payload: if off < p.len() { p.subrange(off, p.len() as int) } else { Seq::empty() },
            })
        }
    }
}

/// What a SUB payload holds: a one-byte pattern length and the pattern;
/// then, when more than one byte follows, a one-byte group length and the
/// queue group when that length is non-zero and fits.
pub open spec fn sub_payload_spec(p: Seq<u8>) -> Option<(Seq<char>, Option<Seq<char>>)> {
    if p.len() == 0 {
        None
    } else {
        let pl = p[0] as int;
        if p.len() < 1 + pl {
            None
        } else {
            let pattern = lossy_text(p.subrange(1, 1 + pl));
            let qg = if p.len() > 1 + pl + 1 {
                let ql = p[1 + pl] as int;
                if p.len() >= 2 + pl + ql && ql > 0 {
                    Some(lossy_text(p.subrange(2 + pl, 2 + pl + ql)))
                } else {
                    None
                }
            } else {
                None
            };
            Some((pattern, qg))
        }
    }
}

/// The abstract value of a command.
pub enum CommandView {
    Connect(u8, AuthView),
    Publish(PubView, Option<Seq<(Seq<char>, Seq<char>)>>),
    Subscribe(Seq<char>, Option<Seq<char>>),
    Unsubscribe(u64),
    Ping,
    CreateStream(CreateStreamView),
    DeleteStream(Seq<char>),
    Ack(Seq<char>, u64),
    Nack(Seq<char>, u64),
}

/// The command that a frame of type `t`, version `version`, header section
/// `headers` and payload `p` carries, or nothing when it is malformed or
/// of a type that carries no command.
pub open spec fn command_spec(t: FrameType, version: u8, headers: Seq<u8>, p: Seq<u8>) -> Option<CommandView> {
    match t {
        FrameType::Connect => if p.len() == 0 {
            Some(CommandView::Connect(version, AuthView::Anonymous))
        } else {
            match auth_decode_spec(p[0], p.subrange(1, p.len() as int)) {
                Some(a) => Some(CommandView::Connect(version, a)),
                None => None,
            }
        },
        FrameType::Pub => match pub_payload_spec(p) {
            Some(v) => if headers.len() == 0 {
                Some(CommandView::Publish(v, None))
            } else {
                match decode_headers_spec(headers) {
                    Some(h) => Some(CommandView::Publish(v, Some(h))),
                    None => None,
                }
            },
            None => None,
        },
        FrameType::Sub => match sub_payload_spec(p) {
            Some((pat, qg)) => Some(CommandView::Subscribe(pat, qg)),
            None => None,
        },
        FrameType::Unsub => if p.len() < 8 {
            None
        } else {
            Some(CommandView::Unsubscribe(read_u64(p, 0)))
        },
        FrameType::Ping => Some(CommandView::Ping),
        FrameType::CreateStream => match create_stream_spec(p) {
            Some(c) => Some(CommandView::CreateStream(c)),
            None => None,
        },
        FrameType::DeleteStream => match delete_stream_spec(p) {
            Some(n) => Some(CommandView::DeleteStream(n)),
            None => None,
        },
        FrameType::Ack => match seq_ack_spec(p) {
            Some((st, sq)) => Some(CommandView::Ack(st, sq)),
            None => None,
        },
        FrameType::Nack => match seq_ack_spec(p) {
            Some((st, sq)) => Some(CommandView::Nack(st, sq)),
            None => None,
        },
        _ => None,
    }
}

/// The text of an optional string.
pub open spec fn opt_text(s: Option<String>) -> Option<Seq<char>> {
    match s {
        Some(x) => Some(x@),
        None => None,
    }
}

/// The bytes of an optional byte vector.
pub open spec fn opt_bytes(s: Option<Vec<u8>>) -> Option<Seq<u8>> {
    match s {
        Some(x) => Some(x@),
        None => None,
    }
}

/// The abstract value of a decoded command.
pub open spec fn command_view(c: BrokerCommand) -> CommandView {
    match c {
        BrokerCommand::Connect(x) => CommandView::Connect(x.protocol_version, x.auth@),
        BrokerCommand::Publish(x) => CommandView::Publish(
            PubView { subject: x.subject@, reply_to: opt_bytes(x.reply_to), payload: x.payload@ },
            match x.headers {
                Some(h) => Some(headers_view(h)),
                None => None,
            },
        ),
        BrokerCommand::Subscribe(x) => CommandView::Subscribe(x.subject_pattern@, opt_text(x.queue_group)),
        BrokerCommand::Unsubscribe(x) => CommandView::Unsubscribe(x.subscription_id),
        BrokerCommand::Ping(_) => CommandView::Ping,
        BrokerCommand::CreateStream(x) => CommandView::CreateStream(x@),
        BrokerCommand::DeleteStream(x) => CommandView::DeleteStream(x.name@),
        BrokerCommand::Ack(x) => CommandView::Ack(x.stream@, x.sequence),
        BrokerCommand::Nack(x) => CommandView::Nack(x.stream@, x.sequence),
    }
}

/// The name of a frame type: the variant's name.
pub open spec fn frame_type_text(t: FrameType) -> Seq<char> {
    match t {
        FrameType::Connect => "Connect"@,
        FrameType::Connack => "Connack"@,
        FrameType::Ping => "Ping"@,
        FrameType::Pong => "Pong"@,
        FrameType::Pub => "Pub"@,
        FrameType::Msg => "Msg"@,
        FrameType::Sub => "Sub"@,
        FrameType::Suback => "Suback"@,
        FrameType::Unsub => "Unsub"@,
        FrameType::Unsuback => "Unsuback"@,
        FrameType::Ack => "Ack"@,
        FrameType::Nack => "Nack"@,
        FrameType::CreateStream => "CreateStream"@,
        FrameType::DeleteStream => "DeleteStream"@,
        FrameType::StreamInfo => "StreamInfo"@,
        FrameType::Success => "Success"@,
        FrameType::Error => "Error"@,
    }
}

/// The name of a frame type, as debug output writes it.
fn frame_type_name(t: FrameType) -> (r: &'static str)
    ensures
        r@ == frame_type_text(t),
{
    match t {
        FrameType::Connect => "Connect",
        FrameType::Connack => "Connack",
        FrameType::Ping => "Ping",
        FrameType::Pong => "Pong",
        FrameType::Pub => "Pub",
        FrameType::Msg => "Msg",
        FrameType::Sub => "Sub",
        FrameType::Suback => "Suback",
        FrameType::Unsub => "Unsub",
        FrameType::Unsuback => "Unsuback",
        FrameType::Ack => "Ack",
        FrameType::Nack => "Nack",
        FrameType::CreateStream => "CreateStream",
        FrameType::DeleteStream => "DeleteStream",
        FrameType::StreamInfo => "StreamInfo",
        FrameType::Success => "Success",
        FrameType::Error => "Error",
    }
}

/// Decodes a PUB payload.
fn decode_pub(frame: &Frame) -> (r: Result<PublishCommand, ProtocolError>)
    ensures
        match r {
            Ok(c) => command_spec(FrameType::Pub, frame.header.version, frame.headers@, frame.payload@) == Some(
                command_view(BrokerCommand::Publish(c)),
            ),
            Err(ProtocolError::DecodingError(_)) => command_spec(FrameType::Pub, frame.header.version, frame.headers@, frame.payload@) is None,
            Err(_) => false,
        },
{
    let payload = frame.payload.as_slice();
    if payload.len() < 2 {
        return Err(ProtocolError::DecodingError("PUB frame too short".to_owned()));
    }
    let subj_len = get_u16(payload, 0) as usize;
    if payload.len() < 2 + subj_len {
        return Err(ProtocolError::DecodingError("PUB subject truncated".to_owned()));
    }
    let subject = copy_range(payload, 2, 2 + subj_len);
    let ghost p = payload@;
    let ghost rest = p.subrange(2 + subj_len, p.len() as int);
    let (reply_to, data_start): (Option<Vec<u8>>, usize) = if payload.len() - (2 + subj_len) >= 2 {
        let reply_len = get_u16(payload, 2 + subj_len) as usize;
        proof {
            assert(rest[0] == p[2 + subj_len] && rest[1] == p[2 + subj_len + 1]);
        }
        if payload.len() - (2 + subj_len) >= 2 + reply_len && reply_len > 0 {
            let reply_offset = 2 + subj_len + 2;
            (Some(copy_range(payload, reply_offset, reply_offset + reply_len)), 2 + reply_len)
        } else {
            (None, 2)
        }
    } else {
        (None, 0)
    };
    let payload_offset = 2 + subj_len + data_start;
    let msg_payload = if payload_offset < payload.len() {
        copy_range(payload, payload_offset, payload.len())
    } else {
        Vec::new()
    };
    let headers = if frame.headers.len() > 0 {
        match decode_headers(frame.headers.as_slice()) {
            Ok(h) => Some(h),
            Err(e) => {
                return Err(e);
            },
        }
    } else {
        None
    };
    proof {
        if !(payload_offset < payload.len()) {
            assert(msg_payload@ =~= Seq::<u8>::empty());
        }
    }
    Ok(PublishCommand { subject, payload: msg_payload, reply_to, headers })
}

/// Decodes a SUB payload.
fn decode_sub(payload: &[u8]) -> (r: Result<SubscribeCommand, ProtocolError>)
    ensures
        match r {
            Ok(c) => sub_payload_spec(payload@) == Some((c.subject_pattern@, opt_text(c.queue_group))),
            Err(ProtocolError::DecodingError(_)) => sub_payload_spec(payload@) is None,
            Err(_) => false,
        },
{
    if payload.len() == 0 {
        return Err(ProtocolError::DecodingError("SUB frame empty".to_owned()));
    }
    let pattern_len = payload[0] as usize;
    if payload.len() < 1 + pattern_len {
        return Err(ProtocolError::DecodingError("SUB pattern truncated".to_owned()));
    }
    let pb = copy_range(payload, 1, 1 + pattern_len);
    let subject_pattern = decode_text(pb.as_slice());
    let queue_group = if payload.len() > 1 + pattern_len + 1 {
        let qg_len = payload[1 + pattern_len] as usize;
        if payload.len() >= 2 + pattern_len + qg_len && qg_len > 0 {
            let qb = copy_range(payload, 2 + pattern_len, 2 + pattern_len + qg_len);
            Some(decode_text(qb.as_slice()))
        } else {
            None
        }
    } else {
        None
    };
    Ok(SubscribeCommand { subject_pattern, queue_group })
}

/// What decoding the command of `frame` may give (see
/// `BrokerCommand::from_frame`).
pub open spec fn from_frame_result(frame: Frame, r: Result<BrokerCommand, ProtocolError>) -> bool {
    &&& match r {
        Ok(c) => exists|t: FrameType| frame_code(t) == frame.header.frame_type && command_spec(t, frame.header.version, frame.headers@, frame.payload@)
            == Some(command_view(c)),
        Err(ProtocolError::UnknownFrameType(v)) => v == frame.header.frame_type && !is_frame_code(v),
        Err(ProtocolError::DecodingError(_)) => exists|t: FrameType| frame_code(t) == frame.header.frame_type && command_spec(t, frame.header.version, frame.headers@, frame.payload@) is None,
        Err(_) => false,
    }
    &&& r matches Ok(BrokerCommand::Connect(c)) ==> c.client_name is None
}

impl BrokerCommand {
    /// Decodes the command that a client frame carries: CONNECT (with
    /// optional credentials), PUB, SUB, UNSUB or PING. An unknown frame
    /// type is `UnknownFrameType`; a malformed payload, or a frame type that
    /// carries no command, is a `DecodingError`.
    pub fn from_frame(frame: Frame) -> (r: Result<BrokerCommand, ProtocolError>)
        ensures
            from_frame_result(frame, r),
    {
        let ft = match FrameType::from_u8(frame.header.frame_type) {
            Ok(t) => t,
            Err(e) => {
                return Err(e);
            },
        };
        match ft {
            FrameType::Connect => {
                let mut cmd = ConnectCommand::new(frame.header.version);
                if frame.payload.len() > 0 {
                    let auth_type = frame.payload[0];
                    let data = copy_range(frame.payload.as_slice(), 1, frame.payload.len());
                    match AuthInfo::decode(auth_type, data.as_slice()) {
                        Ok(auth) => {
                            cmd.auth = auth;
                        },
                        Err(e) => {
                            return Err(ProtocolError::DecodingError(concat_text("invalid auth: ", e.as_str())));
                        },
                    }
                }
                Ok(BrokerCommand::Connect(cmd))
            },
            FrameType::Pub => match decode_pub(&frame) {
                Ok(c) => Ok(BrokerCommand::Publish(c)),
                Err(e) => Err(e),
            },
            FrameType::Sub => match decode_sub(frame.payload.as_slice()) {
                Ok(c) => Ok(BrokerCommand::Subscribe(c)),
                Err(e) => Err(e),
            },
            FrameType::Unsub => {
                if frame.payload.len() < 8 {
                    return Err(ProtocolError::DecodingError("UNSUB frame too short".to_owned()));
                }
                let id = get_u64(frame.payload.as_slice(), 0);
                Ok(BrokerCommand::Unsubscribe(UnsubscribeCommand { subscription_id: id }))
            },
            FrameType::Ping => Ok(BrokerCommand::Ping(PingCommand)),
            FrameType::CreateStream => match CreateStreamCommand::decode(frame.payload.as_slice()) {
                Ok(c) => Ok(BrokerCommand::CreateStream(c)),
                Err(e) => Err(ProtocolError::DecodingError(e)),
            },
            FrameType::DeleteStream => match DeleteStreamCommand::decode(frame.payload.as_slice()) {
                Ok(c) => Ok(BrokerCommand::DeleteStream(c)),
                Err(e) => Err(ProtocolError::DecodingError(e)),
            },
            FrameType::Ack => match AckCommand::decode(frame.payload.as_slice()) {
                Ok(c) => Ok(BrokerCommand::Ack(c)),
                Err(e) => Err(ProtocolError::DecodingError(e)),
            },
            FrameType::Nack => match NackCommand::decode(frame.payload.as_slice()) {
                Ok(c) => Ok(BrokerCommand::Nack(c)),
                Err(e) => Err(ProtocolError::DecodingError(e)),
            },
            _ => Err(ProtocolError::DecodingError(concat_text("unexpected frame type for command: ", frame_type_name(ft)))),
        }
    }
}

} // verus!
