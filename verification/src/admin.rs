//! The admin endpoint's answers: JSON for the counters and the streams,
//! and the HTTP response for a request line.

use vstd::prelude::*;
use vstd::string::*;
use vstd::utf8::*;

use crate::broker::BrokerCore;
use crate::delivery::DeliveryHandle;
use crate::memory::{MemoryStore, info_matches};
use crate::metrics::{MetricsSnapshot, snapshot_of};
use crate::stream::{StreamConfig, StreamInfo, StreamState, StreamView};
use crate::text::{chars_eq, chars_of, decimal, decimal_chars, is_ws, push_chars, push_str_chars, string_of, trim_start};

verus! {

/// A control character, as `char::is_control` tests: general category Cc.
pub open spec fn is_control_char(c: char) -> bool {
    let u = c as u32;
    u < 0x20 || (0x7f <= u && u <= 0x9f)
}

/// The lower-case hexadecimal digit for `d`.
pub open spec fn hex_char(d: nat) -> char {
    if d < 10 { digit_of(d) } else if d == 10 { 'a' } else if d == 11 { 'b' } else if d == 12 { 'c' } else if d == 13 { 'd' } else if d == 14 { 'e' } else { 'f' }
}

/// The decimal digit for `d`.
pub open spec fn digit_of(d: nat) -> char {
    crate::text::digit_char(d)
}

/// How one character is written inside a JSON string.
pub open spec fn escape_char(c: char) -> Seq<char> {
    if c == '"' {
        seq!['\\', '"']
    } else if c == '\\' {
        seq!['\\', '\\']
    } else if c == '\n' {
        seq!['\\', 'n']
    } else if c == '\r' {
        seq!['\\', 'r']
    } else if c == '\t' {
        seq!['\\', 't']
    } else if is_control_char(c) {
        let u = c as u32 as nat;
        seq!['\\', 'u', hex_char(u / 4096), hex_char((u / 256) % 16), hex_char((u / 16) % 16), hex_char(u % 16)]
    } else {
        seq![c]
    }
}

/// The text `s` with each character escaped for a JSON string.
pub open spec fn escape_json(s: Seq<char>) -> Seq<char>
    decreases s.len(),
{
    if s.len() == 0 {
        Seq::empty()
    } else {
        escape_json(s.drop_last()) + escape_char(s.last())
    }
}

/// The value of a hexadecimal digit, in either case.
pub open spec fn hex_value(c: char) -> Option<nat> {
    let u = c as u32;
    if 0x30 <= u <= 0x39 {
        Some((u - 0x30) as nat)
    } else if 0x61 <= u <= 0x66 {
        Some((u - 0x57) as nat)
    } else if 0x41 <= u <= 0x46 {
        Some((u - 0x37) as nat)
    } else {
        None
    }
}

/// `c` in front of the text `r`, where there is one.
pub open spec fn prepend(c: char, r: Option<Seq<char>>) -> Option<Seq<char>> {
    match r {
        Some(t) => Some(seq![c] + t),
        None => None,
    }
}

/// Whether the four characters of `s` from `i` on are hexadecimal digits.
pub open spec fn hex4_at(s: Seq<char>, i: int) -> bool {
    &&& s.len() >= i + 4
    &&& hex_value(s[i]) is Some
    &&& hex_value(s[i + 1]) is Some
    &&& hex_value(s[i + 2]) is Some
    &&& hex_value(s[i + 3]) is Some
}

/// The number the four hexadecimal digits of `s` from `i` on write.
pub open spec fn hex4_value(s: Seq<char>, i: int) -> nat {
    4096 * hex_value(s[i]).unwrap() + 256 * hex_value(s[i + 1]).unwrap() + 16 * hex_value(s[i + 2]).unwrap()
        + hex_value(s[i + 3]).unwrap()
}

/// The text that the body of a JSON string literal (what stands between
/// its quotes) stands for, as RFC 8259 reads it: a character other than
/// `"`, `\` and the controls below U+0020 stands for itself; `\"`,
/// `\\`, `\/`, `\b`, `\f`, `\n`, `\r` and `\t` for the character
/// they name; `\u` with four hexadecimal digits for that code point.
/// Anything else gives nothing, and so do `\u` escapes of surrogate
/// halves, which RFC 8259 allows only in pairs.
pub open spec fn json_unescape(s: Seq<char>) -> Option<Seq<char>>
    decreases s.len(),
{
    if s.len() == 0 {
        Some(Seq::empty())
    } else if s[0] == '"' || (s[0] as u32) < 0x20 {
        None
    } else if s[0] != '\\' {
        prepend(s[0], json_unescape(s.skip(1)))
    } else if s.len() < 2 {
        None
    } else if s[1] == '"' || s[1] == '\\' || s[1] == '/' {
        prepend(s[1], json_unescape(s.skip(2)))
    } else if s[1] == 'b' {
        prepend('\u{8}', json_unescape(s.skip(2)))
    } else if s[1] == 'f' {
        prepend('\u{c}', json_unescape(s.skip(2)))
    } else if s[1] == 'n' {
        prepend('\n', json_unescape(s.skip(2)))
    } else if s[1] == 'r' {
        prepend('\r', json_unescape(s.skip(2)))
    } else if s[1] == 't' {
        prepend('\t', json_unescape(s.skip(2)))
    } else if s[1] == 'u' && hex4_at(s, 2) && !(0xD800 <= hex4_value(s, 2) <= 0xDFFF) {
        prepend(hex4_value(s, 2) as char, json_unescape(s.skip(6)))
    } else {
        None
    }
}

proof fn lemma_hex_value(d: nat)
    requires
        d < 16,
    ensures
        hex_value(hex_char(d)) == Some(d),
{
}

/// Decoding an escaped character followed by more text gives the
/// character followed by what the rest gives.
proof fn lemma_unescape_char(c: char, rest: Seq<char>)
    ensures
        json_unescape(escape_char(c) + rest) == prepend(c, json_unescape(rest)),
{
    let e = escape_char(c);
    let s = e + rest;
    assert(s.skip(e.len() as int) =~= rest);
    if c == '"' || c == '\\' || c == '\n' || c == '\r' || c == '\t' {
        assert(s[0] == e[0] && s[1] == e[1]);
    } else if is_control_char(c) {
        let u = c as u32 as nat;
        assert(u < 0xa0);
        assert(u / 4096 == 0 && (u / 256) % 16 == 0);
        assert(u == 16 * (u / 16) + u % 16);
        lemma_hex_value(0);
        lemma_hex_value(u / 16);
        lemma_hex_value(u % 16);
        assert(s[2] == e[2] && s[3] == e[3] && s[4] == e[4] && s[5] == e[5]);
        assert(hex4_value(s, 2) == u);
        assert((u as char) == c);
    } else {
        assert(s[0] == c);
    }
}

proof fn lemma_escape_concat(a: Seq<char>, b: Seq<char>)
    ensures
        escape_json(a + b) == escape_json(a) + escape_json(b),
    decreases b.len(),
{
    if b.len() == 0 {
        assert(a + b =~= a);
        assert(escape_json(a) + escape_json(b) =~= escape_json(a));
    } else {
        assert((a + b).drop_last() =~= a + b.drop_last());
        assert((a + b).last() == b.last());
        lemma_escape_concat(a, b.drop_last());
        assert(escape_json(a + b) =~= escape_json(a) + escape_json(b));
    }
}

/// Escaping text for a JSON string loses nothing and writes no control
/// character: read back as the body of a JSON string literal, the escaped
/// text gives exactly the text (so no `"` in it is left unescaped).
pub proof fn lemma_json_escape_roundtrip(s: Seq<char>)
    ensures
        json_unescape(escape_json(s)) == Some(s),
        forall|i: int| 0 <= i < escape_json(s).len() ==> !is_control_char(#[trigger] escape_json(s)[i]),
    decreases s.len(),
{
    if s.len() > 0 {
        let head = seq![s[0]];
        let tail = s.drop_first();
        assert(head + tail =~= s);
        lemma_escape_concat(head, tail);
        assert(head.drop_last() =~= Seq::<char>::empty());
        assert(escape_json(head.drop_last()) =~= Seq::<char>::empty());
        assert(head.last() == s[0]);
        assert(escape_json(head) =~= escape_char(s[0]));
        lemma_json_escape_roundtrip(tail);
        lemma_unescape_char(s[0], escape_json(tail));
        assert(seq![s[0]] + tail =~= s);
        let e = escape_char(s[0]);
        assert forall|i: int| 0 <= i < escape_json(s).len() implies !is_control_char(#[trigger] escape_json(s)[i]) by {
            if i < e.len() {
                assert(escape_json(s)[i] == e[i]);
                if is_control_char(s[0]) && s[0] != '\n' && s[0] != '\r' && s[0] != '\t' {
                    let u = s[0] as u32 as nat;
                    assert(u / 4096 < 16 && (u / 256) % 16 < 16 && (u / 16) % 16 < 16 && u % 16 < 16);
                }
            } else {
                assert(escape_json(s)[i] == escape_json(tail)[i - e.len()]);
            }
        }
    } else {
        assert(escape_json(s) =~= Seq::<char>::empty());
    }
}

/// The lower-case hexadecimal digit for `d`.
fn hex_digit(d: u32) -> (c: char)
    requires
        d < 16,
    ensures
        c == hex_char(d as nat),
{
    if d < 10 {
        crate::text::digit(d as u64)
    } else if d == 10 {
        'a'
    } else if d == 11 {
        'b'
    } else if d == 12 {
        'c'
    } else if d == 13 {
        'd'
    } else if d == 14 {
        'e'
    } else {
        'f'
    }
}

/// Appends the escaped form of `c`.
fn push_escaped(out: &mut Vec<char>, c: char)
    ensures
        final(out)@ == old(out)@ + escape_char(c),
{
    let ghost start = out@;
    if c == '"' {
        out.push('\\');
        out.push('"');
    } else if c == '\\' {
        out.push('\\');
        out.push('\\');
    } else if c == '\n' {
        out.push('\\');
        out.push('n');
    } else if c == '\r' {
        out.push('\\');
        out.push('r');
    } else if c == '\t' {
        out.push('\\');
        out.push('t');
    } else {
        let u = c as u32;
        if u < 0x20 || (0x7f <= u && u <= 0x9f) {
            out.push('\\');
            out.push('u');
            out.push(hex_digit(u / 4096));
            out.push(hex_digit((u / 256) % 16));
            out.push(hex_digit((u / 16) % 16));
            out.push(hex_digit(u % 16));
        } else {
            out.push(c);
        }
    }
    assert(out@ =~= start + escape_char(c));
}

/// The text escaped for use inside a JSON string.
pub fn escape_json_string(input: &str) -> (r: String)
    ensures
        r@ == escape_json(input@),
{
    let cs = chars_of(input);
    let mut out: Vec<char> = Vec::new();
    let mut i: usize = 0;
    while i < cs.len()
        invariant
            i <= cs@.len(),
            cs@ == input@,
            out@ == escape_json(cs@.subrange(0, i as int)),
        decreases cs@.len() - i,
    {
        let ghost prev = cs@.subrange(0, i as int);
        push_escaped(&mut out, cs[i]);
        proof {
            let next = cs@.subrange(0, i + 1);
            assert(next.drop_last() =~= prev);
            assert(next.last() == cs@[i as int]);
        }
        i = i + 1;
    }
    assert(cs@.subrange(0, cs@.len() as int) =~= cs@);
    string_of(out.as_slice())
}

/// The JSON object of the counters.
pub open spec fn metrics_json_spec(m: MetricsSnapshot) -> Seq<char> {
    "{\"active_connections\":"@ + decimal(m.active_connections as nat) + ",\"total_connections\":"@
        + decimal(m.total_connections as nat) + ",\"active_subscriptions\":"@ + decimal(m.active_subscriptions as nat)
        + ",\"messages_published\":"@ + decimal(m.messages_published as nat) + ",\"messages_delivered\":"@
        + decimal(m.messages_delivered as nat) + ",\"messages_dropped\":"@ + decimal(m.messages_dropped as nat)
        + ",\"protocol_errors\":"@ + decimal(m.protocol_errors as nat) + "}"@
}

/// Appends the decimal digits of `n`.
fn push_number(out: &mut Vec<char>, n: u64)
    ensures
        final(out)@ == old(out)@ + decimal(n as nat),
{
    let d = decimal_chars(n);
    push_chars(out, d.as_slice());
}

/// Appends the JSON object of the counters.
fn push_metrics_json(out: &mut Vec<char>, m: &MetricsSnapshot)
    ensures
        final(out)@ == old(out)@ + metrics_json_spec(*m),
{
    let ghost start = out@;
    push_str_chars(out, "{\"active_connections\":");
    push_number(out, m.active_connections);
    push_str_chars(out, ",\"total_connections\":");
    push_number(out, m.total_connections);
    push_str_chars(out, ",\"active_subscriptions\":");
    push_number(out, m.active_subscriptions);
    push_str_chars(out, ",\"messages_published\":");
    push_number(out, m.messages_published);
    push_str_chars(out, ",\"messages_delivered\":");
    push_number(out, m.messages_delivered);
    push_str_chars(out, ",\"messages_dropped\":");
    push_number(out, m.messages_dropped);
    push_str_chars(out, ",\"protocol_errors\":");
    push_number(out, m.protocol_errors);
    push_str_chars(out, "}");
    assert(out@ =~= start + metrics_json_spec(*m));
}

/// The counters as a JSON object.
pub fn metrics_json(snapshot: &MetricsSnapshot) -> (r: String)
    ensures
        r@ == metrics_json_spec(*snapshot),
{
    let mut out: Vec<char> = Vec::new();
    push_metrics_json(&mut out, snapshot);
    assert(out@ =~= metrics_json_spec(*snapshot));
    string_of(out.as_slice())
}

/// A stream's name, limits and counters.
pub type StreamTriple = (Seq<char>, StreamConfig, StreamState);

/// The JSON object of a stream.
pub open spec fn stream_json_spec(t: StreamTriple) -> Seq<char> {
    "{\"name\":\""@ + escape_json(t.0) + "\",\"config\":{\"max_msgs\":"@ + decimal(t.1.max_msgs as nat)
        + ",\"max_bytes\":"@ + decimal(t.1.max_bytes as nat) + ",\"max_age_secs\":"@
        + decimal(t.1.max_age_secs as nat) + "},\"state\":{\"messages\":"@ + decimal(t.2.messages as nat)
        + ",\"bytes\":"@ + decimal(t.2.bytes as nat) + ",\"first_seq\":"@ + decimal(t.2.first_seq as nat)
        + ",\"last_seq\":"@ + decimal(t.2.last_seq as nat) + "}}"@
}

/// The streams' JSON objects, comma separated.
pub open spec fn stream_list_json(ts: Seq<StreamTriple>) -> Seq<char>
    decreases ts.len(),
{
    if ts.len() == 0 {
        Seq::empty()
    } else if ts.len() == 1 {
        stream_json_spec(ts[0])
    } else {
        stream_list_json(ts.drop_last()) + ","@ + stream_json_spec(ts.last())
    }
}

/// The JSON array of the streams.
pub open spec fn streams_json_spec(ts: Seq<StreamTriple>) -> Seq<char> {
    "["@ + stream_list_json(ts) + "]"@
}

/// The triples of stream infos.
pub open spec fn info_triples(s: Seq<StreamInfo>) -> Seq<StreamTriple> {
    s.map_values(|i: StreamInfo| (i.name@, i.config, i.state))
}

/// The triples of stream views.
pub open spec fn view_triples(s: Seq<StreamView>) -> Seq<StreamTriple> {
    s.map_values(|v: StreamView| (v.name, v.config, v.state))
}

/// Appends the JSON object of a stream.
fn push_stream_json(out: &mut Vec<char>, stream: &StreamInfo)
    ensures
        final(out)@ == old(out)@ + stream_json_spec((stream.name@, stream.config, stream.state)),
{
    let ghost start = out@;
    push_str_chars(out, "{\"name\":\"");
    let name = escape_json_string(stream.name.as_str());
    push_str_chars(out, name.as_str());
    push_str_chars(out, "\",\"config\":{\"max_msgs\":");
    push_number(out, stream.config.max_msgs);
    push_str_chars(out, ",\"max_bytes\":");
    push_number(out, stream.config.max_bytes);
    push_str_chars(out, ",\"max_age_secs\":");
    push_number(out, stream.config.max_age_secs);
    push_str_chars(out, "},\"state\":{\"messages\":");
    push_number(out, stream.state.messages);
    push_str_chars(out, ",\"bytes\":");
    push_number(out, stream.state.bytes);
    push_str_chars(out, ",\"first_seq\":");
    push_number(out, stream.state.first_seq);
    push_str_chars(out, ",\"last_seq\":");
    push_number(out, stream.state.last_seq);
    push_str_chars(out, "}}");
    assert(out@ =~= start + stream_json_spec((stream.name@, stream.config, stream.state)));
}

/// A stream as a JSON object.
pub fn stream_json(stream: &StreamInfo) -> (r: String)
    ensures
        r@ == stream_json_spec((stream.name@, stream.config, stream.state)),
{
    let mut out: Vec<char> = Vec::new();
    push_stream_json(&mut out, stream);
    assert(out@ =~= stream_json_spec((stream.name@, stream.config, stream.state)));
    string_of(out.as_slice())
}

/// Appends the JSON array of the streams.
fn push_streams_json(out: &mut Vec<char>, streams: &[StreamInfo])
    ensures
        final(out)@ == old(out)@ + streams_json_spec(info_triples(streams@)),
{
    let ghost start = out@;
    push_str_chars(out, "[");
    let mut i: usize = 0;
    while i < streams.len()
        invariant
            i <= streams@.len(),
            out@ == start + "["@ + stream_list_json(info_triples(streams@.subrange(0, i as int))),
        decreases streams@.len() - i,
    {
        let ghost prev = out@;
        if i > 0 {
            out.push(',');
        }
        push_stream_json(out, &streams[i]);
        proof {
            let ts = info_triples(streams@.subrange(0, i + 1));
            assert(ts.drop_last() =~= info_triples(streams@.subrange(0, i as int)));
            assert(ts.last() == (streams@[i as int].name@, streams@[i as int].config, streams@[i as int].state));
            if i == 0 {
                assert(info_triples(streams@.subrange(0, 0)) =~= Seq::<StreamTriple>::empty());
                assert(ts.len() == 1 && ts[0] == ts.last());
            } else {
                reveal_strlit(",");
            }
            assert(out@ =~= start + "["@ + stream_list_json(ts));
        }
        i = i + 1;
    }
    push_str_chars(out, "]");
    assert(streams@.subrange(0, streams@.len() as int) =~= streams@);
    assert(out@ =~= start + streams_json_spec(info_triples(streams@)));
}

/// The streams as a JSON array.
pub fn streams_json(streams: &[StreamInfo]) -> (r: String)
    ensures
        r@ == streams_json_spec(info_triples(streams@)),
{
    let mut out: Vec<char> = Vec::new();
    push_streams_json(&mut out, streams);
    assert(out@ =~= streams_json_spec(info_triples(streams@)));
    string_of(out.as_slice())
}

/// The JSON object of the counters and the streams.
pub open spec fn stats_json_spec(m: MetricsSnapshot, ts: Seq<StreamTriple>) -> Seq<char> {
    "{\"metrics\":"@ + metrics_json_spec(m) + ",\"streams\":"@ + streams_json_spec(ts) + "}"@
}

/// The counters and the streams as one JSON object.
pub fn stats_json(metrics: &MetricsSnapshot, streams: &[StreamInfo]) -> (r: String)
    ensures
        r@ == stats_json_spec(*metrics, info_triples(streams@)),
{
    let mut out: Vec<char> = Vec::new();
    push_str_chars(&mut out, "{\"metrics\":");
    push_metrics_json(&mut out, metrics);
    push_str_chars(&mut out, ",\"streams\":");
    push_streams_json(&mut out, streams);
    push_str_chars(&mut out, "}");
    assert(out@ =~= stats_json_spec(*metrics, info_triples(streams@)));
    string_of(out.as_slice())
}

/// The HTTP response with status line `status` and JSON body `body`.
pub open spec fn json_response_spec(status: Seq<char>, body: Seq<char>) -> Seq<char> {
    "HTTP/1.1 "@ + status + "\r\nContent-Type: application/json\r\nContent-Length: "@
        + decimal(encode_utf8(body).len()) + "\r\nConnection: close\r\n\r\n"@ + body
}

/// An HTTP response carrying a JSON body; the length counts its UTF-8
/// bytes.
pub fn json_response(status: &str, body: &str) -> (r: String)
    ensures
        r@ == json_response_spec(status@, body@),
{
    let n = body.as_bytes().len();
    let mut out: Vec<char> = Vec::new();
    push_str_chars(&mut out, "HTTP/1.1 ");
    push_str_chars(&mut out, status);
    push_str_chars(&mut out, "\r\nContent-Type: application/json\r\nContent-Length: ");
    push_number(&mut out, n as u64);
    push_str_chars(&mut out, "\r\nConnection: close\r\n\r\n");
    push_str_chars(&mut out, body);
    assert(out@ =~= json_response_spec(status@, body@));
    string_of(out.as_slice())
}

/// The leading run of non-whitespace characters of `s`.
pub open spec fn take_word(s: Seq<char>) -> Seq<char>
    decreases s.len(),
{
    if s.len() > 0 && !is_ws(s[0]) {
        seq![s[0]] + take_word(s.drop_first())
    } else {
        Seq::empty()
    }
}

/// The first whitespace-separated word of a request line, or nothing.
pub open spec fn request_method(line: Seq<char>) -> Seq<char> {
    take_word(trim_start(line))
}

/// The second whitespace-separated word of a request line, or nothing.
pub open spec fn request_path(line: Seq<char>) -> Seq<char> {
    let t = trim_start(line);
    take_word(trim_start(t.skip(take_word(t).len() as int)))
}

/// The response to a request line, given the counters and the streams:
/// only GET is served; `/metrics`, `/streams`, `/healthz` and `/stats`
/// answer with JSON, other paths with 404.
pub open spec fn route_spec(line: Seq<char>, m: MetricsSnapshot, ts: Seq<StreamTriple>) -> Seq<char> {
    let path = request_path(line);
    if request_method(line) != "GET"@ {
        json_response_spec("405 Method Not Allowed"@, "{\"error\":\"method not allowed\"}"@)
    } else if path == "/metrics"@ {
        json_response_spec("200 OK"@, metrics_json_spec(m))
    } else if path == "/streams"@ {
        json_response_spec("200 OK"@, streams_json_spec(ts))
    } else if path == "/healthz"@ {
        json_response_spec("200 OK"@, "{\"status\":\"ok\"}"@)
    } else if path == "/stats"@ {
        json_response_spec("200 OK"@, stats_json_spec(m, ts))
    } else {
        json_response_spec("404 Not Found"@, "{\"error\":\"not found\"}"@)
    }
}

/// The position after the whitespace that starts at `i`.
fn skip_ws_from(cs: &[char], i: usize) -> (j: usize)
    requires
        i <= cs@.len(),
    ensures
        i <= j <= cs@.len(),
        cs@.subrange(j as int, cs@.len() as int) == trim_start(cs@.subrange(i as int, cs@.len() as int)),
{
    let n = cs.len();
    let mut j = i;
    while j < n && is_whitespace(cs[j])
        invariant
            i <= j <= n,
            n == cs@.len(),
            trim_start(cs@.subrange(j as int, n as int)) == trim_start(cs@.subrange(i as int, n as int)),
        decreases n - j,
    {
        assert(cs@.subrange(j as int, n as int).drop_first() =~= cs@.subrange(j + 1, n as int));
        j = j + 1;
    }
    j
}

/// The position after the word that starts at `i`.
fn word_end(cs: &[char], i: usize) -> (j: usize)
    requires
        i <= cs@.len(),
    ensures
        i <= j <= cs@.len(),
        cs@.subrange(i as int, j as int) == take_word(cs@.subrange(i as int, cs@.len() as int)),
{
    let n = cs.len();
    let mut j = i;
    while j < n && !is_whitespace(cs[j])
        invariant
            i <= j <= n,
            n == cs@.len(),
            take_word(cs@.subrange(i as int, n as int)) == cs@.subrange(i as int, j as int) + take_word(cs@.subrange(j as int, n as int)),
        decreases n - j,
    {
        assert(cs@.subrange(j as int, n as int).drop_first() =~= cs@.subrange(j + 1, n as int));
        assert(cs@.subrange(i as int, j + 1) =~= cs@.subrange(i as int, j as int) + seq![cs@[j as int]]);
        j = j + 1;
    }
    assert(cs@.subrange(i as int, j as int) + Seq::<char>::empty() =~= cs@.subrange(i as int, j as int));
    j
}

/// Whether `c` is Unicode whitespace, as `char::is_whitespace` says.
fn is_whitespace(c: char) -> (r: bool)
    ensures
        r == is_ws(c),
{
    let u = c as u32;
    (0x09 <= u && u <= 0x0D) || u == 0x20 || u == 0x85 || u == 0xA0 || u == 0x1680 || (0x2000 <= u && u <= 0x200A)
        || u == 0x2028 || u == 0x2029 || u == 0x202F || u == 0x205F || u == 0x3000
}

/// The response to a request line: see `route_spec`, with the broker's
/// counters and the store's streams.
pub fn route_request<D: DeliveryHandle>(request_line: &str, broker: &BrokerCore<D>, store: &MemoryStore) -> (r: String)
    requires
        store.wf(),
    ensures
        r@ == route_spec(request_line@, snapshot_of(broker.counters()), view_triples(store@)),
{
    let cs = chars_of(request_line);
    let n = cs.len();
    let m0 = skip_ws_from(cs.as_slice(), 0);
    let m1 = word_end(cs.as_slice(), m0);
    let p0 = skip_ws_from(cs.as_slice(), m1);
    let p1 = word_end(cs.as_slice(), p0);
    let ghost line = request_line@;
    proof {
        assert(cs@.subrange(0, n as int) =~= line);
        let t = trim_start(line);
        assert(t =~= cs@.subrange(m0 as int, n as int));
        assert(take_word(t) =~= cs@.subrange(m0 as int, m1 as int));
        assert(t.skip(take_word(t).len() as int) =~= cs@.subrange(m1 as int, n as int));
    }
    let method = copy_chars(cs.as_slice(), m0, m1);
    let path = copy_chars(cs.as_slice(), p0, p1);
    let get = chars_of("GET");
    if !chars_eq(method.as_slice(), get.as_slice()) {
        return json_response("405 Method Not Allowed", "{\"error\":\"method not allowed\"}");
    }
    let metrics_path = chars_of("/metrics");
    let streams_path = chars_of("/streams");
    let health_path = chars_of("/healthz");
    let stats_path = chars_of("/stats");
    if chars_eq(path.as_slice(), metrics_path.as_slice()) {
        let body = metrics_json(&broker.metrics().snapshot());
        json_response("200 OK", body.as_str())
    } else if chars_eq(path.as_slice(), streams_path.as_slice()) {
        let streams = store.list_streams();
        proof {
            assert(info_triples(streams@) =~= view_triples(store@));
        }
        let body = streams_json(streams.as_slice());
        json_response("200 OK", body.as_str())
    } else if chars_eq(path.as_slice(), health_path.as_slice()) {
        json_response("200 OK", "{\"status\":\"ok\"}")
    } else if chars_eq(path.as_slice(), stats_path.as_slice()) {
        let snapshot = broker.metrics().snapshot();
        let streams = store.list_streams();
        proof {
            assert(info_triples(streams@) =~= view_triples(store@));
        }
        let body = stats_json(&snapshot, streams.as_slice());
        json_response("200 OK", body.as_str())
    } else {
        json_response("404 Not Found", "{\"error\":\"not found\"}")
    }
}

/// The characters of `cs` from `i` to `j`, copied.
fn copy_chars(cs: &[char], i: usize, j: usize) -> (r: Vec<char>)
    requires
        i <= j <= cs@.len(),
    ensures
        r@ == cs@.subrange(i as int, j as int),
{
    let mut r: Vec<char> = Vec::new();
    let mut k = i;
    while k < j
        invariant
            i <= k <= j <= cs@.len(),
            r@ == cs@.subrange(i as int, k as int),
        decreases j - k,
    {
        r.push(cs[k]);
        k = k + 1;
        assert(cs@.subrange(i as int, k as int) =~= cs@.subrange(i as int, k - 1) + seq![cs@[k - 1]]);
    }
    r
}

/// The characters of `s` up to its first line feed.
pub open spec fn line_prefix(s: Seq<char>) -> Seq<char>
    decreases s.len(),
{
    if s.len() == 0 || s[0] == '\n' {
        Seq::empty()
    } else {
        seq![s[0]] + line_prefix(s.drop_first())
    }
}

/// The first line of `s`, as `str::lines` gives it: up to the first line
/// feed, less one carriage return before it; the whole text where there is
/// no line feed; nothing for an empty text.
pub open spec fn first_line_spec(s: Seq<char>) -> Seq<char> {
    let l = line_prefix(s);
    if s.contains('\n') && l.len() > 0 && l.last() == '\r' {
        l.drop_last()
    } else {
        l
    }
}

/// The first line of a text (see `first_line_spec`).
pub fn first_line(text: &str) -> (r: String)
    ensures
        r@ == first_line_spec(text@),
{
    let cs = chars_of(text);
    let n = cs.len();
    let mut i: usize = 0;
    assert(cs@.subrange(0, 0) + line_prefix(cs@.subrange(0, n as int)) =~= line_prefix(cs@)) by {
        assert(cs@.subrange(0, n as int) =~= cs@);
    }
    while i < n && cs[i] != '\n'
        invariant
            i <= n,
            n == cs@.len(),
            line_prefix(cs@) == cs@.subrange(0, i as int) + line_prefix(cs@.subrange(i as int, n as int)),
            forall|k: int| 0 <= k < i ==> cs@[k] != '\n',
        decreases n - i,
    {
        assert(cs@.subrange(i as int, n as int).drop_first() =~= cs@.subrange(i + 1, n as int));
        assert(cs@.subrange(0, i + 1) =~= cs@.subrange(0, i as int) + seq![cs@[i as int]]);
        i = i + 1;
    }
    let has_newline = i < n;
    proof {
        assert(line_prefix(cs@) =~= cs@.subrange(0, i as int));
        if has_newline {
            assert(cs@.contains('\n'));
        } else {
            assert(!cs@.contains('\n'));
        }
    }
    let end = if has_newline && i > 0 && cs[i - 1] == '\r' { i - 1 } else { i };
    let line = copy_chars(cs.as_slice(), 0, end);
    proof {
        if end < i {
            assert(line@ =~= cs@.subrange(0, i as int).drop_last());
        }
    }
    string_of(line.as_slice())
}

/// The response to a request's first bytes: their first line, decoded
/// leniently, routed (see `route_request`).
pub fn admin_response<D: DeliveryHandle>(request: &[u8], broker: &BrokerCore<D>, store: &MemoryStore) -> (r: String)
    requires
        store.wf(),
    ensures
        r@ == route_spec(first_line_spec(crate::text::lossy_text(request@)), snapshot_of(broker.counters()), view_triples(store@)),
{
    let text = crate::text::decode_text(request);
    let line = first_line(text.as_str());
    route_request(line.as_str(), broker, store)
}

} // verus!
