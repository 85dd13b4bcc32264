//! The client's logic: options, TLS server-name resolution, the frames it
//! sends, and the decoding of the frames it receives.

use std::time::Duration;

use vstd::prelude::*;
use vstd::string::*;
use vstd::utf8::*;

use crate::codec::{copy_range, get_u16, get_u64, lemma_read_u16_be, put_slice, put_u16, put_u64, read_u16, read_u64, u16_be, u64_be};
use crate::command::{AuthInfo, AuthView, ConnectCommand, PubView, command_spec, connect_payload, pub_payload_spec, sub_payload_spec};
use crate::error::{ClientError, ProtocolError};
use crate::frame::{Frame, FrameHeader, FrameType, frame_code, from_u8_result};
use crate::headers::{decode_headers, decode_headers_spec, encode_headers, fits_wire, headers_bytes, lemma_headers_roundtrip, names_distinct};
use crate::message::{HeaderMap, headers_view};
use crate::text::{chars_of, concat_text, decimal, decode_text, lemma_text_roundtrip, lossy_text, string_of, text_then_number, trim, trim_str};

verus! {

/// Credentials a client connects with.
#[derive(Clone, Debug)]
pub enum ClientAuth {
    Anonymous,
    Token(String),
    UserPass { username: String, password: String },
}

/// The credentials as sent in CONNECT.
pub open spec fn client_auth_view(a: ClientAuth) -> AuthView {
    match a {
        ClientAuth::Anonymous => AuthView::Anonymous,
        ClientAuth::Token(t) => AuthView::Token(t@),
        ClientAuth::UserPass { username, password } => AuthView::UserPass(username@, password@),
    }
}

/// The duration that `Duration::from_secs` gives for `n` seconds.
pub uninterp spec fn secs_duration(n: u64) -> Duration;

/// `Duration::from_secs`: the duration of `n` whole seconds, named
/// `secs_duration(n)`.
#[verifier::external_body]
fn secs(n: u64) -> (r: Duration)
    ensures
        r == secs_duration(n),
{
    Duration::from_secs(n)
}

/// How a client connects.
#[derive(Debug)]
pub struct ClientOptions {
    pub addr: String,
    pub name: Option<String>,
    pub max_frame_size: usize,
    pub connect_timeout: Duration,
    pub request_timeout: Duration,
    pub auth: ClientAuth,
    pub tls: bool,
    pub tls_skip_verify: bool,
    /// Whether a lost connection is made again, its subscriptions
    /// replayed; off by default, so that a client fails fast.
    pub reconnect_enabled: bool,
    /// Milliseconds to wait before a reconnect attempt.
    pub reconnect_delay_ms: u64,
    /// How many reconnect attempts are made before giving up.
    pub max_reconnect_attempts: u32,
    /// Whether the wait doubles after each failed attempt.
    pub reconnect_backoff: bool,
}

/// The default server address.
pub open spec fn default_addr() -> Seq<char> {
    seq!['1', '2', '7', '.', '0', '.', '0', '.', '1', ':', '4', '2', '2', '2']
}

/// A copy of credentials.
fn clone_auth(a: &ClientAuth) -> (r: ClientAuth)
    ensures
        client_auth_view(r) == client_auth_view(*a),
{
    match a {
        ClientAuth::Anonymous => ClientAuth::Anonymous,
        ClientAuth::Token(t) => ClientAuth::Token(t.clone()),
        ClientAuth::UserPass { username, password } => ClientAuth::UserPass { username: username.clone(), password: password.clone() },
    }
}

impl Clone for ClientOptions {
    fn clone(&self) -> (r: Self)
        ensures
            r.addr@ == self.addr@,
            r.max_frame_size == self.max_frame_size,
            r.connect_timeout == self.connect_timeout,
            r.request_timeout == self.request_timeout,
            client_auth_view(r.auth) == client_auth_view(self.auth),
            r.tls == self.tls,
            r.tls_skip_verify == self.tls_skip_verify,
            r.reconnect_enabled == self.reconnect_enabled,
            r.reconnect_delay_ms == self.reconnect_delay_ms,
            r.max_reconnect_attempts == self.max_reconnect_attempts,
            r.reconnect_backoff == self.reconnect_backoff,
    {
        ClientOptions {
            addr: self.addr.clone(),
            name: match &self.name {
                Some(n) => Some(n.clone()),
                None => None,
            },
            max_frame_size: self.max_frame_size,
            connect_timeout: self.connect_timeout,
            request_timeout: self.request_timeout,
            auth: clone_auth(&self.auth),
            tls: self.tls,
            tls_skip_verify: self.tls_skip_verify,
            reconnect_enabled: self.reconnect_enabled,
            reconnect_delay_ms: self.reconnect_delay_ms,
            max_reconnect_attempts: self.max_reconnect_attempts,
            reconnect_backoff: self.reconnect_backoff,
        }
    }
}

impl Default for ClientOptions {
    /// Address 127.0.0.1:4222, no name, frames up to 2 MiB, timeouts of
    /// five seconds, no credentials, no TLS, and no reconnecting (when
    /// turned on: ten attempts, a wait of 100 ms doubling after each).
    fn default() -> (r: Self)
        ensures
            !r.reconnect_enabled,
            r.reconnect_delay_ms == 100,
            r.max_reconnect_attempts == 10,
            r.reconnect_backoff,
            r.addr@ == default_addr(),
            r.name is None,
            r.max_frame_size == 2 * 1024 * 1024,
            r.connect_timeout == secs_duration(5),
            r.request_timeout == secs_duration(5),
            client_auth_view(r.auth) == AuthView::Anonymous,
            !r.tls,
            !r.tls_skip_verify,
    {
        let addr = "127.0.0.1:4222".to_owned();
        proof {
            reveal_strlit("127.0.0.1:4222");
            assert(addr@ =~= default_addr());
        }
        ClientOptions {
            addr,
            name: None,
            max_frame_size: 2 * 1024 * 1024,
            connect_timeout: secs(5),
            request_timeout: secs(5),
            auth: ClientAuth::Anonymous,
            tls: false,
            tls_skip_verify: false,
            reconnect_enabled: false,
            reconnect_delay_ms: 100,
            max_reconnect_attempts: 10,
            reconnect_backoff: true,
        }
    }
}

impl ClientOptions {
    /// The default options with the given address.
    pub fn new(addr: String) -> (r: Self)
        ensures
            r.addr@ == addr@,
            r.name is None,
            r.max_frame_size == 2 * 1024 * 1024,
            r.connect_timeout == secs_duration(5),
            r.request_timeout == secs_duration(5),
            client_auth_view(r.auth) == AuthView::Anonymous,
            !r.tls,
            !r.tls_skip_verify,
    {
        let d = ClientOptions::default();
        ClientOptions { addr, ..d }
    }

    /// The same options with token credentials.
    pub fn with_token(self, token: String) -> (r: Self)
        ensures
            client_auth_view(r.auth) == AuthView::Token(token@),
            r.addr == self.addr,
            r.name == self.name,
            r.max_frame_size == self.max_frame_size,
            r.connect_timeout == self.connect_timeout,
            r.request_timeout == self.request_timeout,
            r.tls == self.tls,
            r.tls_skip_verify == self.tls_skip_verify,
    {
        ClientOptions { auth: ClientAuth::Token(token), ..self }
    }

    /// The same options with username and password credentials.
    pub fn with_userpass(self, username: String, password: String) -> (r: Self)
        ensures
            client_auth_view(r.auth) == AuthView::UserPass(username@, password@),
            r.addr == self.addr,
            r.name == self.name,
            r.max_frame_size == self.max_frame_size,
            r.connect_timeout == self.connect_timeout,
            r.request_timeout == self.request_timeout,
            r.tls == self.tls,
            r.tls_skip_verify == self.tls_skip_verify,
    {
        ClientOptions { auth: ClientAuth::UserPass { username, password }, ..self }
    }

    /// The same options with TLS on, and certificate checks skipped when asked.
    pub fn with_tls(self, skip_verify: bool) -> (r: Self)
        ensures
            r.tls,
            r.tls_skip_verify == skip_verify,
            r.addr == self.addr,
            r.name == self.name,
            r.max_frame_size == self.max_frame_size,
            r.connect_timeout == self.connect_timeout,
            r.request_timeout == self.request_timeout,
            client_auth_view(r.auth) == client_auth_view(self.auth),
    {
        ClientOptions { tls: true, tls_skip_verify: skip_verify, ..self }
    }

    /// The same options with reconnecting on: up to `max_attempts`
    /// attempts, the first wait `delay_ms` milliseconds, doubling after
    /// each failed attempt when `backoff` is set.
    pub fn with_reconnect(self, max_attempts: u32, delay_ms: u64, backoff: bool) -> (r: Self)
        ensures
            r.reconnect_enabled,
            r.max_reconnect_attempts == max_attempts,
            r.reconnect_delay_ms == delay_ms,
            r.reconnect_backoff == backoff,
            r.addr == self.addr,
            r.name == self.name,
            r.max_frame_size == self.max_frame_size,
            r.connect_timeout == self.connect_timeout,
            r.request_timeout == self.request_timeout,
            client_auth_view(r.auth) == client_auth_view(self.auth),
            r.tls == self.tls,
            r.tls_skip_verify == self.tls_skip_verify,
    {
        ClientOptions {
            reconnect_enabled: true,
            max_reconnect_attempts: max_attempts,
            reconnect_delay_ms: delay_ms,
            reconnect_backoff: backoff,
            ..self
        }
    }
}

/// The wait before reconnect attempt `k` (counted from 0): the first wait,
/// doubled `k` times with backoff, and held at `u64::MAX` milliseconds.
pub open spec fn backoff_delay(first_ms: u64, k: nat, backoff: bool) -> u64
    decreases k,
{
    if k == 0 || !backoff {
        first_ms
    } else {
        let d = backoff_delay(first_ms, (k - 1) as nat, backoff);
        if d <= u64::MAX / 2 {
            (2 * d) as u64
        } else {
            u64::MAX
        }
    }
}

/// Where a run of reconnect attempts stands: attempts made so far, and
/// the settings it follows.
pub struct ReconnectPlan {
    attempt: u32,
    max_attempts: u32,
    first_ms: u64,
    delay_ms: u64,
    backoff: bool,
    wait_first: bool,
}

/// What to do next in a run of reconnect attempts.
#[derive(Debug, PartialEq, Eq, Structural)]
pub enum ReconnectAction {
    /// Wait this many milliseconds (none for 0), then try to connect.
    Attempt(u64),
    /// Give up: every attempt failed.
    GiveUp,
}

impl ReconnectPlan {
    /// The attempts made so far.
    pub closed spec fn attempts(&self) -> nat {
        self.attempt as nat
    }

    /// How many attempts the run makes at most.
    pub closed spec fn max(&self) -> nat {
        self.max_attempts as nat
    }

    /// The wait before the first attempt that waits.
    pub closed spec fn first(&self) -> u64 {
        self.first_ms
    }

    /// Whether the wait doubles after each failed attempt.
    pub closed spec fn doubles(&self) -> bool {
        self.backoff
    }

    /// Whether the first attempt waits too.
    pub closed spec fn waits_first(&self) -> bool {
        self.wait_first
    }

    /// The run is consistent: it made no more attempts than allowed, and
    /// holds the wait for the attempt it stands at.
    pub closed spec fn wf(&self) -> bool {
        &&& self.attempt <= self.max_attempts
        &&& self.delay_ms == backoff_delay(self.first_ms, self.attempt as nat, self.backoff)
    }

    /// A run of reconnect attempts by the options; with `wait_first` the
    /// first attempt waits too.
    pub fn new(opts: &ClientOptions, wait_first: bool) -> (r: Self)
        ensures
            r.wf(),
            r.attempts() == 0,
            r.max() == opts.max_reconnect_attempts,
            r.first() == opts.reconnect_delay_ms,
            r.doubles() == opts.reconnect_backoff,
            r.waits_first() == wait_first,
    {
        ReconnectPlan {
            attempt: 0,
            max_attempts: opts.max_reconnect_attempts,
            first_ms: opts.reconnect_delay_ms,
            delay_ms: opts.reconnect_delay_ms,
            backoff: opts.reconnect_backoff,
            wait_first,
        }
    }

    /// The next step after the attempts so far failed: attempt `k` waits
    /// `backoff_delay(first, k)` milliseconds, except the first when it is
    /// not to wait; after the last attempt the run gives up.
    pub fn next(&mut self) -> (r: ReconnectAction)
        requires
            old(self).wf(),
        ensures
            final(self).wf(),
            final(self).max() == old(self).max(),
            final(self).first() == old(self).first(),
            final(self).doubles() == old(self).doubles(),
            final(self).waits_first() == old(self).waits_first(),
            old(self).attempts() >= old(self).max() ==> r == ReconnectAction::GiveUp
                && final(self).attempts() == old(self).attempts(),
            old(self).attempts() < old(self).max() ==> {
                &&& final(self).attempts() == old(self).attempts() + 1
                &&& r == ReconnectAction::Attempt(
                    if old(self).attempts() == 0 && !old(self).waits_first() {
                        0
                    } else {
                        backoff_delay(old(self).first(), old(self).attempts(), old(self).doubles())
                    },
                )
            },
    {
        if self.attempt >= self.max_attempts {
            return ReconnectAction::GiveUp;
        }
        let wait = if self.attempt == 0 && !self.wait_first {
            0
        } else {
            self.delay_ms
        };
        if self.backoff {
            self.delay_ms = if self.delay_ms <= u64::MAX / 2 {
                2 * self.delay_ms
            } else {
                u64::MAX
            };
        }
        self.attempt = self.attempt + 1;
        proof {
            reveal_with_fuel(backoff_delay, 2);
        }
        ReconnectAction::Attempt(wait)
    }
}

/// `c` lowered when it is an ASCII capital letter.
pub open spec fn ascii_lower(c: char) -> char {
    if 'A' <= c && c <= 'Z' {
        (((c as u8) + 32) as u8) as char
    } else {
        c
    }
}

/// `s` with ASCII capitals lowered, as `to_ascii_lowercase` does.
pub open spec fn ascii_lower_str(s: Seq<char>) -> Seq<char> {
    s.map_values(|c: char| ascii_lower(c))
}

/// The values that switch an option on.
pub open spec fn is_truthy(t: Seq<char>) -> bool {
    ||| t == seq!['1']
    ||| t == seq!['t', 'r', 'u', 'e']
    ||| t == seq!['y', 'e', 's']
    ||| t == seq!['o', 'n']
}

/// Lowers ASCII capitals.
fn lower_ascii(s: &[char]) -> (r: Vec<char>)
    ensures
        r@ == ascii_lower_str(s@),
{
    let mut r: Vec<char> = Vec::new();
    let mut i: usize = 0;
    while i < s.len()
        invariant
            i <= s@.len(),
            r@ == ascii_lower_str(s@.take(i as int)),
        decreases s@.len() - i,
    {
        let c = s[i];
        let l = if 'A' <= c && c <= 'Z' {
            ((c as u8) + 32) as char
        } else {
            c
        };
        r.push(l);
        proof {
            assert(s@.take(i + 1) =~= s@.take(i as int).push(c));
            assert(ascii_lower_str(s@.take(i + 1)) =~= ascii_lower_str(s@.take(i as int)).push(ascii_lower(c)));
        }
        i = i + 1;
    }
    assert(s@.take(s@.len() as int) =~= s@);
    r
}

/// Whether the characters are exactly `t`.
fn chars_are(s: &Vec<char>, t: &str) -> (r: bool)
    ensures
        r == (s@ == t@),
{
    let tc = chars_of(t);
    crate::text::chars_eq(s.as_slice(), tc.as_slice())
}

/// Whether an environment value allows TLS without certificate checks:
/// trimmed and lowered, it is one of `1`, `true`, `yes`, `on`.
pub fn env_allows_insecure_tls(value: Option<&str>) -> (r: bool)
    ensures
        r == match value {
            Some(v) => is_truthy(ascii_lower_str(trim(v@))),
            None => false,
        },
{
    match value {
        None => false,
        Some(v) => {
            let t = trim_str(v);
            let cs = chars_of(t);
            let l = lower_ascii(cs.as_slice());
            let a = chars_are(&l, "1");
            let b = chars_are(&l, "true");
            let c = chars_are(&l, "yes");
            let d = chars_are(&l, "on");
            proof {
                reveal_strlit("1");
                reveal_strlit("true");
                reveal_strlit("yes");
                reveal_strlit("on");
                assert("1"@ =~= seq!['1']);
                assert("true"@ =~= seq!['t', 'r', 'u', 'e']);
                assert("yes"@ =~= seq!['y', 'e', 's']);
                assert("on"@ =~= seq!['o', 'n']);
            }
            a || b || c || d
        },
    }
}

/// How a TLS connection checks the server's certificate.
#[derive(Clone, Copy, Debug, PartialEq, Eq, Structural)]
pub enum TlsVerification {
    /// Against the platform's root certificates.
    Verify,
    /// Not at all: asked for, and allowed by the environment.
    Skip,
    /// Skipping was asked for but the environment does not allow it.
    Refused,
}

/// Whether a connection asking to skip certificate checks (`skip_verify`)
/// may do so, given the environment value that allows it: checks are kept
/// unless skipping is asked, and skipping is refused unless allowed.
pub fn tls_verification(skip_verify: bool, env_value: Option<&str>) -> (r: TlsVerification)
    ensures
        !skip_verify ==> r == TlsVerification::Verify,
        skip_verify ==> r == (if match env_value {
            Some(v) => is_truthy(ascii_lower_str(trim(v@))),
            None => false,
        } {
            TlsVerification::Skip
        } else {
            TlsVerification::Refused
        }),
{
    if !skip_verify {
        TlsVerification::Verify
    } else if env_allows_insecure_tls(env_value) {
        TlsVerification::Skip
    } else {
        TlsVerification::Refused
    }
}

/// An environment value trimmed, when anything is left.
pub fn env_string(value: Option<&str>) -> (r: Option<String>)
    ensures
        match value {
            Some(v) => if trim(v@).len() > 0 {
                r matches Some(s) && s@ == trim(v@)
            } else {
                r is None
            },
            None => r is None,
        },
{
    match value {
        None => None,
        Some(v) => {
            let t = trim_str(v);
            let n = t.as_bytes().len();
            proof {
                assert(n == encode_utf8(t@).len());
                lemma_encode_len(t@);
                if t@.len() == 0 {
                    assert(t@ =~= Seq::<char>::empty());
                    assert(encode_utf8(t@) =~= Seq::<u8>::empty());
                }
            }
            if n == 0 {
                None
            } else {
                Some(t.to_owned())
            }
        },
    }
}

/// UTF-8 takes at least one byte per character.
proof fn lemma_encode_len(s: Seq<char>)
    ensures
        encode_utf8(s).len() >= s.len(),
    decreases s.len(),
{
    if s.len() > 0 {
        lemma_encode_len(s.drop_first());
        encode_utf8_first_scalar(s);
    }
}

/// `i` is the first position of `c` in `s`.
pub open spec fn is_first(s: Seq<char>, c: char, i: int) -> bool {
    0 <= i < s.len() && s[i] == c && forall|j: int| 0 <= j < i ==> s[j] != c
}

/// `i` is the last position of `c` in `s`.
pub open spec fn is_last(s: Seq<char>, c: char, i: int) -> bool {
    0 <= i < s.len() && s[i] == c && forall|j: int| i < j < s.len() ==> s[j] != c
}

/// The host of a `host:port` address: for `[host]:port`, the non-empty
/// text between the brackets, when a colon and at least one character
/// follow the bracket; otherwise the non-empty text before the last colon,
/// when something follows it.
pub open spec fn host_result(a: Seq<char>, r: Option<Seq<char>>) -> bool {
    if a.len() > 0 && a[0] == '[' {
        let rest = a.drop_first();
        if !rest.contains(']') {
            r is None
        } else {
            forall|e: int| #[trigger] is_first(rest, ']', e) ==> {
                let host = rest.take(e);
                let rem = rest.skip(e + 1);
                r == (if host.len() > 0 && rem.len() > 1 && rem[0] == ':' {
                    Some(host)
                } else {
                    None
                })
            }
        }
    } else if !a.contains(':') {
        r is None
    } else {
        forall|c: int| #[trigger] is_last(a, ':', c) ==> {
            let host = a.take(c);
            r == (if host.len() > 0 && c + 1 < a.len() {
                Some(host)
            } else {
                None
            })
        }
    }
}

/// The host part of a `host:port` or `[host]:port` address.
pub fn extract_host_from_addr(addr: &str) -> (r: Option<String>)
    ensures
        host_result(addr@, match r {
            Some(s) => Some(s@),
            None => None,
        }),
{
    let a = chars_of(addr);
    if a.len() > 0 && a[0] == '[' {
        let ghost rest = a@.drop_first();
        let mut e: usize = 1;
        while e < a.len() && a[e] != ']'
            invariant
                1 <= e <= a@.len(),
                rest == a@.drop_first(),
                forall|j: int| 0 <= j < e - 1 ==> rest[j] != ']',
            decreases a@.len() - e,
        {
            e = e + 1;
        }
        if e == a.len() {
            proof {
                if rest.contains(']') {
                    let j = choose|j: int| 0 <= j < rest.len() && rest[j] == ']';
                    assert(rest[j] != ']');
                }
            }
            return None;
        }
        proof {
            assert(rest[e - 1] == ']');
            assert(is_first(rest, ']', e - 1));
            assert(rest.contains(']'));
            assert forall|f: int| #[trigger] is_first(rest, ']', f) implies f == e - 1 by {
                if f < e - 1 {
                    assert(rest[f] != ']');
                } else if f > e - 1 {
                    assert(rest[e - 1] != ']');
                }
            }
        }
        let host_len = e - 1;
        let rem_len = a.len() - (e + 1);
        if host_len > 0 && rem_len > 1 && a[e + 1] == ':' {
            let mut h: Vec<char> = Vec::new();
            let mut i: usize = 1;
            while i < e
                invariant
                    1 <= i <= e,
                    e < a@.len(),
                    h@ == a@.subrange(1, i as int),
                decreases e - i,
            {
                h.push(a[i]);
                i = i + 1;
                assert(a@.subrange(1, i as int) =~= a@.subrange(1, i - 1).push(a@[i - 1]));
            }
            proof {
                assert(h@ =~= rest.take(e - 1));
                assert(rest.skip(e as int)[0] == a@[e + 1]);
            }
            return Some(string_of(h.as_slice()));
        }
        proof {
            assert(rest.take(e - 1).len() == host_len);
            assert(rest.skip(e as int).len() == rem_len);
            if rem_len > 1 {
                assert(rest.skip(e as int)[0] == a@[e + 1]);
            }
        }
        return None;
    }
    let mut c: usize = a.len();
    while c > 0 && a[c - 1] != ':'
        invariant
            c <= a@.len(),
            forall|j: int| c <= j < a@.len() ==> a@[j] != ':',
        decreases c,
    {
        c = c - 1;
    }
    if c == 0 {
        proof {
            if a@.contains(':') {
                let j = choose|j: int| 0 <= j < a@.len() && a@[j] == ':';
                assert(a@[j] != ':');
            }
        }
        return None;
    }
    let colon = c - 1;
    proof {
        assert(is_last(a@, ':', colon as int));
        assert(a@.contains(':'));
        assert forall|f: int| #[trigger] is_last(a@, ':', f) implies f == colon by {
            if f < colon {
                assert(a@[colon as int] != ':');
            } else if f > colon {
                assert(a@[f] != ':');
            }
        }
    }
    if colon == 0 || colon + 1 >= a.len() {
        return None;
    }
    let mut h: Vec<char> = Vec::new();
    let mut i: usize = 0;
    while i < colon
        invariant
            i <= colon,
            colon < a@.len(),
            h@ == a@.take(i as int),
        decreases colon - i,
    {
        h.push(a[i]);
        i = i + 1;
        assert(a@.take(i as int) =~= a@.take(i - 1).push(a@[i - 1]));
    }
    Some(string_of(h.as_slice()))
}

/// The text of the error when no TLS server name can be found.
pub open spec fn no_server_name_text(addr: Seq<char>) -> Seq<char> {
    "could not derive TLS server name from address `"@ + addr + "`; set ZETMQ_TLS_SERVER_NAME to override it"@
}

/// The TLS server name: the override when one is given and not blank,
/// otherwise the host of the address; without either it is an error.
pub fn resolve_tls_server_name_from_inputs(addr: &str, server_name_override: Option<&str>) -> (r: Result<String, ClientError>)
    ensures
        match server_name_override {
            Some(v) if trim(v@).len() > 0 => r matches Ok(s) && s@ == trim(v@),
            _ => match r {
                Ok(s) => host_result(addr@, Some(s@)),
                Err(ClientError::ConnectionFailed(m)) => host_result(addr@, None) && m@ == no_server_name_text(addr@),
                Err(_) => false,
            },
        },
{
    match env_string(server_name_override) {
        Some(s) => {
            return Ok(s);
        },
        None => {},
    }
    match extract_host_from_addr(addr) {
        Some(h) => Ok(h),
        None => {
            let a = concat_text("could not derive TLS server name from address `", addr);
            let m = concat_text(a.as_str(), "`; set ZETMQ_TLS_SERVER_NAME to override it");
            Err(ClientError::ConnectionFailed(m))
        },
    }
}

/// The credentials as the protocol sends them.
pub fn auth_info_of(auth: &ClientAuth) -> (r: AuthInfo)
    ensures
        r@ == client_auth_view(*auth),
{
    match auth {
        ClientAuth::Anonymous => AuthInfo::Anonymous,
        ClientAuth::Token(t) => AuthInfo::Token(t.clone()),
        ClientAuth::UserPass { username, password } => AuthInfo::UserPass { username: username.clone(), password: password.clone() },
    }
}

/// The CONNECT frame for the options: version 1, the options' name, and
/// the credentials as payload when there are any.
pub fn connect_frame(opts: &ClientOptions) -> (r: Frame)
    ensures
        r.header == (FrameHeader {
            payload_len: r.payload@.len() as u32,
            ..FrameHeader::new_spec(frame_code(FrameType::Connect), 0)
        }),
        r.headers@.len() == 0,
        match connect_payload(client_auth_view(opts.auth)) {
            Some(p) => r.payload@ == p,
            None => r.payload@.len() == 0,
        },
{
    let cmd = ConnectCommand {
        client_name: match &opts.name {
            Some(n) => Some(n.clone()),
            None => None,
        },
        protocol_version: 1,
        auth: auth_info_of(&opts.auth),
    };
    let frame = Frame::new(FrameType::Connect, 0);
    match cmd.encode_payload() {
        Some(p) => frame.with_payload(p),
        None => frame,
    }
}

/// What a frame received during the handshake means.
pub enum HandshakeStep {
    /// CONNACK: the connection is accepted.
    Accepted,
    /// ERROR: the server refused, with its message.
    Refused(String),
    /// Any other frame: keep waiting.
    Wait,
}

/// Interprets a frame received while waiting for CONNACK; an unknown frame
/// type is a protocol error.
pub fn handshake_step(frame: &Frame) -> (r: Result<HandshakeStep, ProtocolError>)
    ensures
        match r {
            Ok(HandshakeStep::Accepted) => frame.header.frame_type == frame_code(FrameType::Connack),
            Ok(HandshakeStep::Refused(m)) => frame.header.frame_type == frame_code(FrameType::Error) && m@ == lossy_text(frame.payload@),
            Ok(HandshakeStep::Wait) => exists|t: FrameType|
                frame_code(t) == frame.header.frame_type && t != FrameType::Connack && t != FrameType::Error,
            Err(e) => from_u8_result(frame.header.frame_type, Err(e)),
        },
{
    match FrameType::from_u8(frame.header.frame_type) {
        Ok(FrameType::Connack) => Ok(HandshakeStep::Accepted),
        Ok(FrameType::Error) => Ok(HandshakeStep::Refused(decode_text(frame.payload.as_slice()))),
        Ok(_) => Ok(HandshakeStep::Wait),
        Err(e) => Err(e),
    }
}

/// The server subscription id a SUBACK carries, when its payload holds one.
pub fn suback_sub_id(frame: &Frame) -> (r: Option<u64>)
    ensures
        match r {
            Some(id) => frame.payload@.len() >= 8 && id == read_u64(frame.payload@, 0),
            None => frame.payload@.len() < 8,
        },
{
    if frame.payload.len() >= 8 {
        Some(get_u64(frame.payload.as_slice(), 0))
    } else {
        None
    }
}

/// The PUB payload the client sends: the subject's length in 16 bits and
/// its bytes, the reply field, then the data. A length that does not fit
/// the field is cut to its low 16 bits; the bytes follow in full.
pub open spec fn client_pub_payload(subject: Seq<char>, reply: Option<Seq<char>>, data: Seq<u8>) -> Seq<u8> {
    u16_be(encode_utf8(subject).len() as u16) + encode_utf8(subject) + match reply {
        Some(r) => u16_be(encode_utf8(r).len() as u16) + encode_utf8(r),
        None => u16_be(0),
    } + data
}

/// The PUB frame for a publish.
pub fn build_pub_frame(subject: &str, reply_to: Option<&str>, payload: &[u8], headers: Option<&HeaderMap>) -> (r: Frame)
    ensures
        r.header.frame_type == frame_code(FrameType::Pub),
        r.header.correlation_id == 0,
        r.header.magic == crate::frame::ZETMQ_MAGIC,
        r.header.version == crate::frame::CURRENT_VERSION,
        r.header.payload_len == r.payload@.len() as u32,
        r.header.header_len == r.headers@.len() as u32,
        r.payload@ == client_pub_payload(subject@, match reply_to {
            Some(x) => Some(x@),
            None => None,
        }, payload@),
        match headers {
            Some(h) => r.headers@ == headers_bytes(headers_view(*h)),
            None => r.headers@.len() == 0,
        },
{
    let subj_bytes = subject.as_bytes();
    let mut data: Vec<u8> = Vec::new();
    put_u16(&mut data, subj_bytes.len() as u16);
    put_slice(&mut data, subj_bytes);
    match reply_to {
        Some(reply) => {
            let rb = reply.as_bytes();
            put_u16(&mut data, rb.len() as u16);
            put_slice(&mut data, rb);
        },
        None => {
            put_u16(&mut data, 0);
        },
    }
    put_slice(&mut data, payload);
    proof {
        assert(data@ =~= client_pub_payload(subject@, match reply_to {
            Some(x) => Some(x@),
            None => None,
        }, payload@));
    }
    let frame = Frame::new(FrameType::Pub, 0).with_payload(data);
    match headers {
        Some(h) => {
            let mut hb: Vec<u8> = Vec::new();
            encode_headers(h, &mut hb);
            assert(hb@ =~= headers_bytes(headers_view(*h)));
            frame.with_headers(hb)
        },
        None => frame,
    }
}

/// The SUB payload the client sends: the pattern's length as one byte and
/// its bytes, then, with a queue group, its length as one byte and bytes.
/// A length over 255 is cut to its low byte; the bytes follow in full.
pub open spec fn client_sub_payload(pattern: Seq<char>, group: Option<Seq<char>>) -> Seq<u8> {
    seq![encode_utf8(pattern).len() as u8] + encode_utf8(pattern) + match group {
        Some(g) => seq![encode_utf8(g).len() as u8] + encode_utf8(g),
        None => Seq::empty(),
    }
}

/// The SUB frame for a subscription.
pub fn build_sub_frame(subject: &str, queue_group: Option<&str>, corr_id: u64) -> (r: Frame)
    ensures
        r.header == (FrameHeader {
            payload_len: r.payload@.len() as u32,
            ..FrameHeader::new_spec(frame_code(FrameType::Sub), corr_id)
        }),
        r.headers@.len() == 0,
        r.payload@ == client_sub_payload(subject@, match queue_group {
            Some(x) => Some(x@),
            None => None,
        }),
{
    let pb = subject.as_bytes();
    let mut data: Vec<u8> = Vec::new();
    data.push(pb.len() as u8);
    put_slice(&mut data, pb);
    match queue_group {
        Some(qg) => {
            let qb = qg.as_bytes();
            data.push(qb.len() as u8);
            put_slice(&mut data, qb);
        },
        None => {},
    }
    proof {
        assert(data@ =~= client_sub_payload(subject@, match queue_group {
            Some(x) => Some(x@),
            None => None,
        }));
    }
    Frame::new(FrameType::Sub, corr_id).with_payload(data)
}

/// The UNSUB frame for a subscription: its id as correlation id and payload.
pub fn build_unsub_frame(server_sub_id: u64) -> (r: Frame)
    ensures
        r.header == (FrameHeader {
            payload_len: 8,
            ..FrameHeader::new_spec(frame_code(FrameType::Unsub), server_sub_id)
        }),
        r.headers@.len() == 0,
        r.payload@ == u64_be(server_sub_id),
{
    let mut data: Vec<u8> = Vec::new();
    put_u64(&mut data, server_sub_id);
    assert(data@ =~= u64_be(server_sub_id));
    Frame::new(FrameType::Unsub, server_sub_id).with_payload(data)
}

/// The reply subject of request number `reply_id`: the inbox prefix, a
/// dot, and the number.
pub fn reply_subject(inbox_prefix: &str, reply_id: u64) -> (r: String)
    ensures
        r@ == inbox_prefix@ + seq!['.'] + decimal(reply_id as nat),
{
    let p = concat_text(inbox_prefix, ".");
    proof {
        reveal_strlit(".");
    }
    let r = text_then_number(p.as_str(), reply_id);
    assert(r@ =~= inbox_prefix@ + seq!['.'] + decimal(reply_id as nat));
    r
}

/// The `n` lower-case hexadecimal digits of `x`, most significant first,
/// padded with zeros (higher digits are dropped).
pub open spec fn hex_digits(x: nat, n: nat) -> Seq<char>
    decreases n,
{
    if n == 0 {
        Seq::empty()
    } else {
        hex_digits(x / 16, (n - 1) as nat).push(crate::admin::hex_char(x % 16))
    }
}

/// Appends the `n` lower-case hexadecimal digits of `x`.
fn push_hex(out: &mut Vec<char>, x: u64, n: u32)
    ensures
        final(out)@ == old(out)@ + hex_digits(x as nat, n as nat),
    decreases n,
{
    if n == 0 {
        assert(old(out)@ + hex_digits(x as nat, 0) =~= old(out)@);
        return;
    }
    push_hex(out, x / 16, n - 1);
    let d = (x % 16) as u8;
    let c = if d < 10 {
        crate::text::digit(d as u64)
    } else if d == 10 {
        'a'
    } else if d == 11 {
        'b'
    } else if d == 12 {
        'c'
    } else if d == 13 {
        'd'
    } else if d == 14 {
        'e'
    } else {
        'f'
    };
    out.push(c);
    assert(final(out)@ =~= old(out)@ + hex_digits(x as nat, n as nat)) by {
        assert(hex_digits(x as nat, n as nat) == hex_digits((x / 16) as nat, (n - 1) as nat).push(crate::admin::hex_char((x % 16) as nat)));
    }
}

/// The inbox prefix made of the random number `rand_part` and the counter
/// value `counter`: `_INBOX.`, 16 hexadecimal digits, a dot, the counter.
pub open spec fn inbox_text(rand_part: u64, counter: u64) -> Seq<char> {
    "_INBOX."@ + hex_digits(rand_part as nat, 16) + seq!['.'] + decimal(counter as nat)
}

/// The inbox prefix for the random number `rand_part` and counter value
/// `counter`.
pub fn inbox_prefix(rand_part: u64, counter: u64) -> (r: String)
    ensures
        r@ == inbox_text(rand_part, counter),
{
    let mut out: Vec<char> = Vec::new();
    crate::text::push_str_chars(&mut out, "_INBOX.");
    push_hex(&mut out, rand_part, 16);
    out.push('.');
    let digits = crate::text::decimal_chars(counter);
    crate::text::push_chars(&mut out, digits.as_slice());
    assert(out@ =~= inbox_text(rand_part, counter));
    string_of(out.as_slice())
}

/// `rand::random::<u64>()`: a random number from the thread's generator.
/// Nothing is promised of its value.
#[verifier::external_body]
fn random_u64() -> u64 {
    rand::random::<u64>()
}

/// A fresh inbox prefix for counter value `counter`, with a random part.
pub fn generate_inbox_prefix(counter: u64) -> (r: String)
    ensures
        exists|rand_part: u64| r@ == #[trigger] inbox_text(rand_part, counter),
{
    let rand_part = random_u64();
    inbox_prefix(rand_part, counter)
}

/// A message received on a subscription.
pub struct Message {
    pub subject: Vec<u8>,
    pub reply_to: Option<Vec<u8>>,
    pub headers: Option<HeaderMap>,
    pub payload: Vec<u8>,
}

/// The parts of a MSG payload: subject, reply subject, subscription id and data.
pub struct MsgView {
    pub subject: Seq<u8>,
    pub reply_to: Option<Seq<u8>>,
    pub sub_id: u64,
    pub payload: Seq<u8>,
}

/// The reply subject of a MSG payload lies within it whenever its length
/// is read (decoding cuts it out before checking).
pub open spec fn msg_reply_fits(p: Seq<u8>) -> bool {
    p.len() >= 2 && p.len() >= 2 + read_u16(p, 0) + 2 ==> {
        let sl = read_u16(p, 0) as int;
        let rl = read_u16(p, 2 + sl) as int;
        rl > 0 ==> 2 + sl + 2 + rl <= p.len()
    }
}

/// What a MSG payload holds, or nothing when it is too short for its parts.
pub open spec fn msg_payload_spec(p: Seq<u8>) -> Option<MsgView> {
    if p.len() < 2 {
        None
    } else {
        let sl = read_u16(p, 0) as int;
        if p.len() < 2 + sl + 2 {
            None
        } else {
            let rl = read_u16(p, 2 + sl) as int;
            let (reply, off) = if rl > 0 {
                (Some(p.subrange(2 + sl + 2, 2 + sl + 2 + rl)), 2 + sl + 2 + rl)
            } else {
                (None, 2 + sl + 2)
            };
            if p.len() < off + 8 {
                None
            } else {
                Some(MsgView {
                    subject: p.subrange(2, 2 + sl),
                    reply_to: reply,
                    sub_id: read_u64(p, off),
                    payload: if off + 8 < p.len() { p.subrange(off + 8, p.len() as int) } else { Seq::empty() },
                })
            }
        }
    }
}

/// Decodes a MSG frame into the subscription id and the message; a short
/// payload or a bad header section is a protocol error.
pub fn decode_msg(frame: &Frame) -> (r: Result<(u64, Message), ClientError>)
    requires
        msg_reply_fits(frame.payload@),
    ensures
        match r {
            Ok((id, m)) => {
                &&& msg_payload_spec(frame.payload@) == Some(MsgView {
                    subject: m.subject@,
                    reply_to: match m.reply_to {
                        Some(x) => Some(x@),
                        None => None,
                    },
                    sub_id: id,
                    payload: m.payload@,
                })
                &&& if frame.headers@.len() == 0 {
                    m.headers is None
                } else {
                    m.headers matches Some(h) && decode_headers_spec(frame.headers@) == Some(headers_view(h))
                }
            },
            Err(ClientError::Protocol(ProtocolError::DecodingError(_))) => msg_payload_spec(frame.payload@) is None || (
            frame.headers@.len() > 0 && decode_headers_spec(frame.headers@) is None),
            Err(_) => false,
        },
{
    let p = frame.payload.as_slice();
    if p.len() < 2 {
        return Err(ClientError::Protocol(ProtocolError::DecodingError("MSG too short".to_owned())));
    }
    let subj_len = get_u16(p, 0) as usize;
    if p.len() < 2 + subj_len + 2 {
        return Err(ClientError::Protocol(ProtocolError::DecodingError("MSG subject truncated".to_owned())));
    }
    let subject = copy_range(p, 2, 2 + subj_len);
    let reply_len = get_u16(p, 2 + subj_len) as usize;
    let (reply_to, data_offset) = if reply_len > 0 {
        let offset = 2 + subj_len + 2;
        (Some(copy_range(p, offset, offset + reply_len)), offset + reply_len)
    } else {
        (None, 2 + subj_len + 2)
    };
    if p.len() < data_offset + 8 {
        return Err(ClientError::Protocol(ProtocolError::DecodingError("MSG sub_id truncated".to_owned())));
    }
    let sub_id = get_u64(p, data_offset);
    let msg_payload = if data_offset + 8 < p.len() {
        copy_range(p, data_offset + 8, p.len())
    } else {
        Vec::new()
    };
    let headers = if frame.headers.len() > 0 {
        match decode_headers(frame.headers.as_slice()) {
            Ok(h) => Some(h),
            Err(e) => {
                return Err(ClientError::Protocol(e));
            },
        }
    } else {
        None
    };
    proof {
        if !(data_offset + 8 < p.len()) {
            assert(msg_payload@ =~= Seq::<u8>::empty());
        }
    }
    Ok((sub_id, Message { subject, reply_to, headers, payload: msg_payload }))
}

/// Whether the reply subject of a MSG payload lies within it (see
/// `msg_reply_fits`).
pub fn msg_reply_in_bounds(p: &[u8]) -> (r: bool)
    ensures
        r == msg_reply_fits(p@),
{
    if p.len() < 2 {
        return true;
    }
    let sl = get_u16(p, 0) as usize;
    if p.len() - 2 < sl || p.len() - 2 - sl < 2 {
        return true;
    }
    let rl = get_u16(p, 2 + sl) as usize;
    rl == 0 || p.len() - (2 + sl + 2) >= rl
}

/// What the client's reader does with a frame from the server.
pub enum ClientAction {
    /// Hand the message to subscription `0`.
    Deliver(u64, Message),
    /// A MSG frame that did not decode.
    BadMessage(ClientError),
    /// The server's id for the subscription asked with this correlation id.
    SubAck { correlation_id: u64, server_sub_id: u64 },
    /// Answer PING with PONG.
    SendPong,
    /// A PONG: wake the flush waiting under this correlation id.
    ResolveFlush(u64),
    /// The server reported an error.
    ServerError(String),
    /// Nothing to do.
    Ignore,
}

/// What to do with a frame from the server: MSG is decoded for delivery,
/// SUBACK with an id answers a pending subscribe, PING is answered, PONG
/// wakes a flush, ERROR is reported; anything else, or an unknown type, is
/// ignored.
pub fn client_frame_action(frame: &Frame) -> (r: ClientAction)
    requires
        frame.header.frame_type == frame_code(FrameType::Msg) ==> msg_reply_fits(frame.payload@),
    ensures
        frame.header.frame_type == frame_code(FrameType::Msg) ==> match decode_msg_spec(*frame) {
            Some((id, mv)) => r matches ClientAction::Deliver(i, m) && i == id && msg_matches(m, mv, frame.headers@),
            None => r matches ClientAction::BadMessage(ClientError::Protocol(ProtocolError::DecodingError(_))),
        },
        frame.header.frame_type == frame_code(FrameType::Suback) ==> if frame.payload@.len() >= 8 {
            r == (ClientAction::SubAck { correlation_id: frame.header.correlation_id, server_sub_id: read_u64(frame.payload@, 0) })
        } else {
            r is Ignore
        },
        frame.header.frame_type == frame_code(FrameType::Ping) ==> r is SendPong,
        frame.header.frame_type == frame_code(FrameType::Pong) ==> r == ClientAction::ResolveFlush(frame.header.correlation_id),
        frame.header.frame_type == frame_code(FrameType::Error) ==> (r matches ClientAction::ServerError(m) && m@ == lossy_text(frame.payload@)),
        frame.header.frame_type != frame_code(FrameType::Msg) && frame.header.frame_type != frame_code(FrameType::Suback)
            && frame.header.frame_type != frame_code(FrameType::Ping) && frame.header.frame_type != frame_code(FrameType::Pong)
            && frame.header.frame_type != frame_code(FrameType::Error) ==> r is Ignore,
{
    match FrameType::from_u8(frame.header.frame_type) {
        Ok(FrameType::Msg) => match decode_msg(frame) {
            Ok((id, m)) => ClientAction::Deliver(id, m),
            Err(e) => ClientAction::BadMessage(e),
        },
        Ok(FrameType::Suback) => match suback_sub_id(frame) {
            Some(id) => ClientAction::SubAck { correlation_id: frame.header.correlation_id, server_sub_id: id },
            None => ClientAction::Ignore,
        },
        Ok(FrameType::Ping) => ClientAction::SendPong,
        Ok(FrameType::Pong) => ClientAction::ResolveFlush(frame.header.correlation_id),
        Ok(FrameType::Error) => ClientAction::ServerError(decode_text(frame.payload.as_slice())),
        _ => ClientAction::Ignore,
    }
}

/// What decoding a MSG frame gives: the subscription id and the message
/// parts, when the payload and the header section decode.
pub open spec fn decode_msg_spec(frame: Frame) -> Option<(u64, MsgView)> {
    match msg_payload_spec(frame.payload@) {
        Some(mv) => if frame.headers@.len() > 0 && decode_headers_spec(frame.headers@) is None {
            None
        } else {
            Some((mv.sub_id, mv))
        },
        None => None,
    }
}

/// A message holds the decoded parts and header section.
pub open spec fn msg_matches(m: Message, mv: MsgView, headers: Seq<u8>) -> bool {
    &&& m.subject@ == mv.subject
    &&& (match m.reply_to {
        Some(x) => Some(x@),
        None => None,
    }) == mv.reply_to
    &&& m.payload@ == mv.payload
    &&& if headers.len() == 0 {
        m.headers is None
    } else {
        m.headers matches Some(h) && decode_headers_spec(headers) == Some(headers_view(h))
    }
}

/// The flush a PONG with correlation id `corr` wakes among those pending:
/// for id 0 the oldest (smallest id), otherwise the one with that id.
pub open spec fn flush_target_spec(corr: u64, pending: Seq<u64>) -> Option<u64> {
    if corr == 0 {
        if pending.len() == 0 {
            None
        } else {
            Some(choose|m: u64| pending.contains(m) && forall|k: int| 0 <= k < pending.len() ==> m <= #[trigger] pending[k])
        }
    } else if pending.contains(corr) {
        Some(corr)
    } else {
        None
    }
}

/// The pending flush that a PONG with correlation id `corr` answers (see
/// `flush_target_spec`).
pub fn flush_target(corr: u64, pending: &[u64]) -> (r: Option<u64>)
    ensures
        r == flush_target_spec(corr, pending@),
{
    if corr == 0 {
        if pending.len() == 0 {
            return None;
        }
        let mut best = pending[0];
        let mut i: usize = 1;
        while i < pending.len()
            invariant
                1 <= i <= pending@.len(),
                pending@.contains(best),
                forall|k: int| 0 <= k < i ==> best <= #[trigger] pending@[k],
            decreases pending@.len() - i,
        {
            if pending[i] < best {
                best = pending[i];
            }
            i = i + 1;
        }
        proof {
            let m = choose|m: u64| pending@.contains(m) && forall|k: int| 0 <= k < pending@.len() ==> m <= #[trigger] pending@[k];
            assert(pending@.contains(best) && forall|k: int| 0 <= k < pending@.len() ==> best <= #[trigger] pending@[k]);
            let j = choose|j: int| 0 <= j < pending@.len() && pending@[j] == m;
            let jb = choose|j: int| 0 <= j < pending@.len() && pending@[j] == best;
            assert(m <= pending@[jb]);
            assert(best <= pending@[j]);
        }
        Some(best)
    } else {
        let mut i: usize = 0;
        while i < pending.len()
            invariant
                i <= pending@.len(),
                forall|k: int| 0 <= k < i ==> pending@[k] != corr,
            decreases pending@.len() - i,
        {
            if pending[i] == corr {
                return Some(corr);
            }
            i = i + 1;
        }
        None
    }
}

/// The bytes of a text shorter than 64 KiB.
pub open spec fn fits_u16(s: Seq<char>) -> bool {
    encode_utf8(s).len() < 0x10000
}

/// PUB agreement: the server decodes the PUB frame a client builds to the
/// subject, reply subject, data and headers that went in, when the subject
/// and reply fit 16-bit lengths, a reply is not empty, and the headers have
/// distinct names and fit the wire format.
#[verifier::spinoff_prover]
#[verifier::rlimit(40)]
pub proof fn lemma_pub_agreement(
    version: u8,
    subject: Seq<char>,
    reply: Option<Seq<char>>,
    data: Seq<u8>,
    headers: Option<Seq<(Seq<char>, Seq<char>)>>,
)
    requires
        fits_u16(subject),
        reply matches Some(r) ==> fits_u16(r) && encode_utf8(r).len() > 0,
        headers matches Some(h) ==> names_distinct(h) && fits_wire(h),
    ensures
        command_spec(
            FrameType::Pub,
            version,
            match headers {
                Some(h) => headers_bytes(h),
                None => Seq::empty(),
            },
            client_pub_payload(subject, reply, data),
        ) == Some(crate::command::CommandView::Publish(
            PubView {
                subject: encode_utf8(subject),
                reply_to: match reply {
                    Some(r) => Some(encode_utf8(r)),
                    None => None,
                },
                payload: data,
            },
            headers,
        )),
{
    let p = client_pub_payload(subject, reply, data);
    let sb = encode_utf8(subject);
    let sl = sb.len() as int;
    assert(p.subrange(0, 2) =~= u16_be(sb.len() as u16));
    lemma_read_u16_be(p, 0, sb.len() as u16);
    assert(p.subrange(2, 2 + sl) =~= sb);
    let rest = p.subrange(2 + sl, p.len() as int);
    match reply {
        Some(r) => {
            let rb = encode_utf8(r);
            let rl = rb.len() as int;
            assert(rest.subrange(0, 2) =~= u16_be(rb.len() as u16));
            lemma_read_u16_be(rest, 0, rb.len() as u16);
            assert(p.subrange(2 + sl + 2, 2 + sl + 2 + rl) =~= rb);
            if 2 + sl + 2 + rl < p.len() {
                assert(p.subrange(2 + sl + 2 + rl, p.len() as int) =~= data);
            } else {
                assert(data =~= Seq::<u8>::empty());
            }
        },
        None => {
            assert(rest.subrange(0, 2) =~= u16_be(0));
            lemma_read_u16_be(rest, 0, 0);
            if 2 + sl + 2 < p.len() {
                assert(p.subrange(2 + sl + 2, p.len() as int) =~= data);
            } else {
                assert(data =~= Seq::<u8>::empty());
            }
        },
    }
    match headers {
        Some(h) => {
            lemma_headers_roundtrip(h);
            assert(headers_bytes(h).len() >= 2);
        },
        None => {},
    }
}

/// SUB agreement: the server decodes the SUB payload a client builds to the
/// pattern and queue group that went in, when the pattern is shorter than
/// 256 bytes and a queue group is non-empty and shorter than 256 bytes.
pub proof fn lemma_sub_agreement(pattern: Seq<char>, group: Option<Seq<char>>)
    requires
        encode_utf8(pattern).len() < 256,
        group matches Some(g) ==> 0 < encode_utf8(g).len() < 256,
    ensures
        sub_payload_spec(client_sub_payload(pattern, group)) == Some((pattern, group)),
{
    let p = client_sub_payload(pattern, group);
    let pb = encode_utf8(pattern);
    let pl = pb.len() as int;
    assert(p[0] == pb.len() as u8);
    assert((pb.len() as u8) as int == pl);
    assert(p.subrange(1, 1 + pl) =~= pb);
    lemma_text_roundtrip(pattern);
    match group {
        Some(g) => {
            let gb = encode_utf8(g);
            let gl = gb.len() as int;
            assert(p[1 + pl] == gb.len() as u8);
            assert((gb.len() as u8) as int == gl);
            assert(p.subrange(2 + pl, 2 + pl + gl) =~= gb);
            lemma_text_roundtrip(g);
        },
        None => {
            assert(p.len() == 1 + pl);
        },
    }
}

/// MSG agreement: the client decodes the MSG payload the server writes to
/// the subject, reply subject, subscription id and data that went in, when
/// the subject and reply fit 16-bit lengths and a reply is not empty; such
/// a payload also meets `decode_msg`'s precondition.
pub proof fn lemma_msg_agreement(subject: Seq<char>, reply: Option<Seq<char>>, sub_id: u64, data: Seq<u8>)
    requires
        fits_u16(subject),
        reply matches Some(r) ==> fits_u16(r) && encode_utf8(r).len() > 0,
    ensures
        msg_reply_fits(crate::wire::msg_payload_bytes(subject, reply, sub_id, data)),
        msg_payload_spec(crate::wire::msg_payload_bytes(subject, reply, sub_id, data)) == Some(MsgView {
            subject: encode_utf8(subject),
            reply_to: match reply {
                Some(r) => Some(encode_utf8(r)),
                None => None,
            },
            sub_id,
            payload: data,
        }),
{
    let p = crate::wire::msg_payload_bytes(subject, reply, sub_id, data);
    let sb = encode_utf8(subject);
    let sl = sb.len() as int;
    assert(p.subrange(0, 2) =~= u16_be(sb.len() as u16));
    lemma_read_u16_be(p, 0, sb.len() as u16);
    assert(p.subrange(2, 2 + sl) =~= sb);
    let off = match reply {
        Some(r) => {
            let rb = encode_utf8(r);
            let rl = rb.len() as int;
            assert(p.subrange(2 + sl, 2 + sl + 2) =~= u16_be(rb.len() as u16));
            lemma_read_u16_be(p, 2 + sl, rb.len() as u16);
            assert(p.subrange(2 + sl + 2, 2 + sl + 2 + rl) =~= rb);
            2 + sl + 2 + rl
        },
        None => {
            assert(p.subrange(2 + sl, 2 + sl + 2) =~= u16_be(0));
            lemma_read_u16_be(p, 2 + sl, 0);
            2 + sl + 2
        },
    };
    assert(p.subrange(off, off + 8) =~= u64_be(sub_id));
    crate::codec::lemma_read_u64_be(p, off, sub_id);
    if off + 8 < p.len() {
        assert(p.subrange(off + 8, p.len() as int) =~= data);
    } else {
        assert(data =~= Seq::<u8>::empty());
    }
}

/// UNSUB agreement: the server reads the subscription id the client sends.
pub proof fn lemma_unsub_agreement(version: u8, sub_id: u64)
    ensures
        command_spec(FrameType::Unsub, version, Seq::empty(), u64_be(sub_id)) == Some(
            crate::command::CommandView::Unsubscribe(sub_id),
        ),
{
    let p = u64_be(sub_id);
    assert(p.subrange(0, 8) =~= p);
    crate::codec::lemma_read_u64_be(p, 0, sub_id);
}

/// CONNECT agreement: the server reads the credentials the client sends,
/// when their texts fit 16-bit lengths.
pub proof fn lemma_connect_agreement(version: u8, a: AuthView)
    requires
        crate::command::auth_fits(a),
    ensures
        command_spec(
            FrameType::Connect,
            version,
            Seq::empty(),
            match connect_payload(a) {
                Some(p) => p,
                None => Seq::empty(),
            },
        ) == Some(crate::command::CommandView::Connect(version, a)),
{
    match connect_payload(a) {
        Some(p) => {
            crate::command::lemma_auth_roundtrip(a, Seq::empty());
            assert(crate::command::auth_fields(a) + Seq::<u8>::empty() =~= crate::command::auth_fields(a));
            assert(p.subrange(1, p.len() as int) =~= crate::command::auth_fields(a));
        },
        None => {},
    }
}

} // verus!
