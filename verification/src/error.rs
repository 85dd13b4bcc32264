//! The error types of the broker's layers.

use vstd::prelude::*;

use crate::text::{concat_text, decimal, decimal_chars, push_chars, push_str_chars, string_of, text_then_number};

verus! {

/// Errors of the domain layer: subjects, patterns, queue groups, delivery.
#[derive(Debug, Clone)]
pub enum CoreError {
    InvalidSubject(String),
    InvalidSubjectPattern(String),
    SubscriptionNotFound(u64),
    ConnectionNotFound(u64),
    InvalidQueueGroupName(String),
    PayloadTooLarge { size: usize, limit: usize },
    SubjectTooLong { len: usize, limit: usize },
    DeliveryFailed { connection_id: u64, reason: String },
}

/// Errors of the routing layer.
#[derive(Debug, Clone, PartialEq, Eq, Structural)]
pub enum RoutingError {
    NoMatch,
    InvalidWildcard,
}

/// Errors of the wire protocol.
#[derive(Debug, Clone)]
pub enum ProtocolError {
    InvalidMagic { expected: u16, got: u16 },
    UnsupportedVersion(u8),
    UnknownFrameType(u8),
    FrameTooLarge { size: usize, limit: usize },
    PayloadTooLarge { size: usize, limit: usize },
    IncompleteFrame { needed: usize, available: usize },
    InvalidHeaderLength(usize),
    EncodingError(String),
    DecodingError(String),
}

/// Errors of the stream store.
#[derive(Debug, Clone)]
pub enum StoreError {
    StreamNotFound(String),
    StreamAlreadyExists(String),
    InvalidOffset { requested: u64, max: u64 },
    Closed,
    Io(String),
    Serialization(String),
}

/// Errors seen by a client.
#[derive(Debug, Clone)]
pub enum ClientError {
    ConnectionFailed(String),
    Disconnected,
    Protocol(ProtocolError),
    Io(String),
    Timeout,
    SubscriptionClosed,
    Server(String),
}

/// Errors of the server.
#[derive(Debug, Clone)]
pub enum ServerError {
    Io(String),
    Config(String),
    Protocol(ProtocolError),
    Core(CoreError),
}

/// The hexadecimal digit for `d` (upper case).
pub open spec fn hex_char(d: nat) -> char {
    if d < 10 {
        ((d + 48) as u8) as char
    } else {
        ((d + 55) as u8) as char
    }
}

/// `n` as four upper-case hexadecimal digits.
pub open spec fn hex4(n: u16) -> Seq<char> {
    seq![hex_char((n / 4096) as nat), hex_char(((n / 256) % 16) as nat), hex_char(((n / 16) % 16) as nat), hex_char((n % 16) as nat)]
}

/// The hexadecimal digit for `d`.
fn hex_digit(d: u16) -> (c: char)
    requires
        d < 16,
    ensures
        c == hex_char(d as nat),
{
    if d < 10 {
        ((d as u8) + 48) as char
    } else {
        ((d as u8) + 55) as char
    }
}

/// Appends `n` as four upper-case hexadecimal digits.
fn push_hex4(out: &mut Vec<char>, n: u16)
    ensures
        final(out)@ == old(out)@ + hex4(n),
{
    let ghost start = out@;
    out.push(hex_digit(n / 4096));
    out.push(hex_digit((n / 256) % 16));
    out.push(hex_digit((n / 16) % 16));
    out.push(hex_digit(n % 16));
    assert(out@ =~= start + hex4(n));
}

/// The text `a`, the decimal `n`, then the text `b`.
fn text_number_text(a: &str, n: u64, b: &str) -> (r: String)
    ensures
        r@ == a@ + decimal(n as nat) + b@,
{
    let mut out: Vec<char> = Vec::new();
    push_str_chars(&mut out, a);
    let d = decimal_chars(n);
    push_chars(&mut out, d.as_slice());
    push_str_chars(&mut out, b);
    string_of(out.as_slice())
}

/// The text `a`, the decimal `m`, the text `b`, then the decimal `n`.
fn two_numbers(a: &str, m: u64, b: &str, n: u64) -> (r: String)
    ensures
        r@ == a@ + decimal(m as nat) + b@ + decimal(n as nat),
{
    let mut out: Vec<char> = Vec::new();
    push_str_chars(&mut out, a);
    let d = decimal_chars(m);
    push_chars(&mut out, d.as_slice());
    push_str_chars(&mut out, b);
    let e = decimal_chars(n);
    push_chars(&mut out, e.as_slice());
    string_of(out.as_slice())
}

/// The message of a domain error.
pub open spec fn core_error_text(e: CoreError) -> Seq<char> {
    match e {
        CoreError::InvalidSubject(m) => "invalid subject: "@ + m@,
        CoreError::InvalidSubjectPattern(m) => "invalid subject pattern: "@ + m@,
        CoreError::SubscriptionNotFound(n) => "subscription not found: "@ + decimal(n as nat),
        CoreError::ConnectionNotFound(n) => "connection not found: "@ + decimal(n as nat),
        CoreError::InvalidQueueGroupName(m) => "queue group name invalid: "@ + m@,
        CoreError::PayloadTooLarge { size, limit } => "payload exceeds limit: "@ + decimal(size as nat) + " > "@ + decimal(limit as nat),
        CoreError::SubjectTooLong { len, limit } => "subject too long: "@ + decimal(len as nat) + " > "@ + decimal(limit as nat),
        CoreError::DeliveryFailed { connection_id, reason } => "delivery failed for connection "@ + decimal(connection_id as nat) + ": "@ + reason@,
    }
}

impl CoreError {
    /// The error's message.
    pub fn to_string(&self) -> (r: String)
        ensures
            r@ == core_error_text(*self),
    {
        match self {
            CoreError::InvalidSubject(m) => concat_text("invalid subject: ", m.as_str()),
            CoreError::InvalidSubjectPattern(m) => concat_text("invalid subject pattern: ", m.as_str()),
            CoreError::SubscriptionNotFound(n) => text_then_number("subscription not found: ", *n),
            CoreError::ConnectionNotFound(n) => text_then_number("connection not found: ", *n),
            CoreError::InvalidQueueGroupName(m) => concat_text("queue group name invalid: ", m.as_str()),
            CoreError::PayloadTooLarge { size, limit } => two_numbers("payload exceeds limit: ", *size as u64, " > ", *limit as u64),
            CoreError::SubjectTooLong { len, limit } => two_numbers("subject too long: ", *len as u64, " > ", *limit as u64),
            CoreError::DeliveryFailed { connection_id, reason } => {
                let a = text_number_text("delivery failed for connection ", *connection_id, ": ");
                concat_text(a.as_str(), reason.as_str())
            },
        }
    }
}

/// The message of a protocol error.
pub open spec fn protocol_error_text(e: ProtocolError) -> Seq<char> {
    match e {
        ProtocolError::InvalidMagic { expected, got } => "invalid magic bytes: expected 0x"@ + hex4(expected) + ", got 0x"@ + hex4(got),
        ProtocolError::UnsupportedVersion(v) => "unsupported protocol version: "@ + decimal(v as nat),
        ProtocolError::UnknownFrameType(v) => "unknown frame type: "@ + decimal(v as nat),
        ProtocolError::FrameTooLarge { size, limit } => "frame too large: "@ + decimal(size as nat) + " > "@ + decimal(limit as nat),
        ProtocolError::PayloadTooLarge { size, limit } => "payload too large: "@ + decimal(size as nat) + " > "@ + decimal(limit as nat),
        ProtocolError::IncompleteFrame { needed, available } => "incomplete frame: need "@ + decimal(needed as nat) + " bytes, have "@ + decimal(available as nat),
        ProtocolError::InvalidHeaderLength(n) => "invalid header length: "@ + decimal(n as nat),
        ProtocolError::EncodingError(m) => "encoding error: "@ + m@,
        ProtocolError::DecodingError(m) => "decoding error: "@ + m@,
    }
}

impl ProtocolError {
    /// The error's message.
    pub fn to_string(&self) -> (r: String)
        ensures
            r@ == protocol_error_text(*self),
    {
        match self {
            ProtocolError::InvalidMagic { expected, got } => {
                let mut out: Vec<char> = Vec::new();
                push_str_chars(&mut out, "invalid magic bytes: expected 0x");
                push_hex4(&mut out, *expected);
                push_str_chars(&mut out, ", got 0x");
                push_hex4(&mut out, *got);
                string_of(out.as_slice())
            },
            ProtocolError::UnsupportedVersion(v) => text_then_number("unsupported protocol version: ", *v as u64),
            ProtocolError::UnknownFrameType(v) => text_then_number("unknown frame type: ", *v as u64),
            ProtocolError::FrameTooLarge { size, limit } => two_numbers("frame too large: ", *size as u64, " > ", *limit as u64),
            ProtocolError::PayloadTooLarge { size, limit } => two_numbers("payload too large: ", *size as u64, " > ", *limit as u64),
            ProtocolError::IncompleteFrame { needed, available } => {
                let a = two_numbers("incomplete frame: need ", *needed as u64, " bytes, have ", *available as u64);
                a
            },
            ProtocolError::InvalidHeaderLength(n) => text_then_number("invalid header length: ", *n as u64),
            ProtocolError::EncodingError(m) => concat_text("encoding error: ", m.as_str()),
            ProtocolError::DecodingError(m) => concat_text("decoding error: ", m.as_str()),
        }
    }
}

/// The message of a store error.
pub open spec fn store_error_text(e: StoreError) -> Seq<char> {
    match e {
        StoreError::StreamNotFound(m) => "stream not found: "@ + m@,
        StoreError::StreamAlreadyExists(m) => "stream already exists: "@ + m@,
        StoreError::InvalidOffset { requested, max } => "invalid offset: expected <= "@ + decimal(max as nat) + ", got "@ + decimal(requested as nat),
        StoreError::Closed => "store closed"@,
        StoreError::Io(m) => "IO error: "@ + m@,
        StoreError::Serialization(m) => "serialization error: "@ + m@,
    }
}

impl StoreError {
    /// The error's message.
    pub fn to_string(&self) -> (r: String)
        ensures
            r@ == store_error_text(*self),
    {
        match self {
            StoreError::StreamNotFound(m) => concat_text("stream not found: ", m.as_str()),
            StoreError::StreamAlreadyExists(m) => concat_text("stream already exists: ", m.as_str()),
            StoreError::InvalidOffset { requested, max } => two_numbers("invalid offset: expected <= ", *max, ", got ", *requested),
            StoreError::Closed => "store closed".to_owned(),
            StoreError::Io(m) => concat_text("IO error: ", m.as_str()),
            StoreError::Serialization(m) => concat_text("serialization error: ", m.as_str()),
        }
    }
}

/// The message of a client error.
pub open spec fn client_error_text(e: ClientError) -> Seq<char> {
    match e {
        ClientError::ConnectionFailed(m) => "connection failed: "@ + m@,
        ClientError::Disconnected => "disconnected"@,
        ClientError::Protocol(p) => "protocol error: "@ + protocol_error_text(p),
        ClientError::Io(m) => "io error: "@ + m@,
        ClientError::Timeout => "request timeout"@,
        ClientError::SubscriptionClosed => "subscription closed"@,
        ClientError::Server(m) => "server error: "@ + m@,
    }
}

impl ClientError {
    /// The error's message.
    pub fn to_string(&self) -> (r: String)
        ensures
            r@ == client_error_text(*self),
    {
        match self {
            ClientError::ConnectionFailed(m) => concat_text("connection failed: ", m.as_str()),
            ClientError::Disconnected => "disconnected".to_owned(),
            ClientError::Protocol(p) => {
                let t = p.to_string();
                concat_text("protocol error: ", t.as_str())
            },
            ClientError::Io(m) => concat_text("io error: ", m.as_str()),
            ClientError::Timeout => "request timeout".to_owned(),
            ClientError::SubscriptionClosed => "subscription closed".to_owned(),
            ClientError::Server(m) => concat_text("server error: ", m.as_str()),
        }
    }
}

/// The message of a server error.
pub open spec fn server_error_text(e: ServerError) -> Seq<char> {
    match e {
        ServerError::Io(m) => "io error: "@ + m@,
        ServerError::Config(m) => "config error: "@ + m@,
        ServerError::Protocol(p) => "protocol error: "@ + protocol_error_text(p),
        ServerError::Core(c) => "core error: "@ + core_error_text(c),
    }
}

impl ServerError {
    /// The error's message.
    pub fn to_string(&self) -> (r: String)
        ensures
            r@ == server_error_text(*self),
    {
        match self {
            ServerError::Io(m) => concat_text("io error: ", m.as_str()),
            ServerError::Config(m) => concat_text("config error: ", m.as_str()),
            ServerError::Protocol(p) => {
                let t = p.to_string();
                concat_text("protocol error: ", t.as_str())
            },
            ServerError::Core(c) => {
                let t = c.to_string();
                concat_text("core error: ", t.as_str())
            },
        }
    }
}

} // verus!
