//! A connection's session on the server: its state, the fast path for
//! runs of PUB frames, and what it does with each frame it reads.

use std::sync::Arc;

use vstd::prelude::*;
use vstd::utf8::*;

use crate::auth::{AuthContext, auth_outcome, covers, publish_allowed, validate_auth};
use crate::command::{BrokerCommand, from_frame_result};
use crate::config::ServerConfig;
use crate::consumer::{ConsumerManager, ManagerView};
use crate::dispatcher::{SubConsumerMap, dispatch, dispatched, is_reply, text_reply};
use crate::metrics::{MetricsSnapshot, snapshot_of, wrap_add};
use crate::registry::on_conn;
use crate::subject_pattern::{SubjectPattern, parsed_pattern, valid_pattern};
use crate::text::{concat_text, decimal, text_then_number, utf8_text};
use crate::broker::BrokerCore;
use crate::codec::{copy_range, read_u32, read_u64};
use crate::command::PublishCommand;
use crate::delivery::DeliveryHandle;
use crate::dispatcher::{dispatch_publish_batch, pub_subject_bytes, subjects_of};
use crate::error::{ProtocolError, protocol_error_text};
use crate::frame::{FRAME_HEADER_SIZE, Frame, FrameType, declared_size, frame_code, frame_decode_result, header_at};
use crate::headers::decode_headers_spec;
use crate::id::ConnectionId;
use crate::subject::{parsed_subject, valid_subject};
use crate::subject_pattern::pattern_matches;
use crate::text::trim;
use crate::wire::{
    PeekError, next_frame_is_pub, parse_publish_payload, peek_error_is, peek_pub_frame_layout,
    peek_pub_frame_total, peek_pub_spec, publish_layout_spec, decode_publish_command_from_buf,
};

verus! {

/// Most PUB frames taken in one fast-path batch.
pub const PUB_BATCH_LIMIT: usize = 128;

/// Most PUB frames skipped in one pass while nobody subscribes.
pub const NO_SUB_PUB_BATCH_LIMIT: usize = 1024;

/// Published messages counted locally before they are added to the broker's
/// counter.
pub const LOCAL_PUBLISHED_FLUSH_THRESHOLD: u64 = 4096;

/// Where a connection is in its life.
#[derive(Clone, Copy, Debug, PartialEq, Eq, Structural)]
pub enum SessionState {
    New,
    Connected,
    Draining,
    Closed,
}

/// Whether a publish of the subject bytes is allowed by `auth`: always when
/// publishing is unrestricted, otherwise when they are UTF-8 text that
/// parses as a subject that one of its publish patterns matches.
pub open spec fn publish_permitted(auth: AuthContext, subject: Seq<u8>) -> bool {
    auth.publish_patterns@.len() == 0 || {
        &&& valid_utf8(subject)
        &&& valid_subject(trim(decode_utf8(subject)))
        &&& exists|i: int| 0 <= i < auth.publish_patterns@.len() && pattern_matches(
            #[trigger] auth.publish_patterns@[i]@.tokens,
            parsed_subject(decode_utf8(subject)).tokens,
        )
    }
}

/// How a run over PUB frames ended.
pub enum FastStatus {
    /// It stopped normally.
    Done,
    /// A frame failed the header checks.
    PeekFailed(PeekError),
    /// A frame's payload or header section was malformed.
    Malformed,
}

/// What a run over PUB frames did.
pub struct FastView {
    pub status: FastStatus,
    /// Frames taken off the buffer.
    pub processed: nat,
    /// Publishes counted.
    pub published: nat,
    /// What is left in the buffer.
    pub rest: Seq<u8>,
    /// Correlation ids of the publishes refused.
    pub denied: Seq<u64>,
    /// Subject bytes of the publishes to make.
    pub subjects: Seq<Seq<u8>>,
}

/// The buffer starts with the header of a PUB frame.
pub open spec fn starts_pub(b: Seq<u8>) -> bool {
    b.len() >= FRAME_HEADER_SIZE && b[3] == frame_code(FrameType::Pub)
}

/// The payload of the complete frame of size `t` at the start of `b`.
pub open spec fn frame_payload(b: Seq<u8>, t: int) -> Seq<u8> {
    b.subrange(FRAME_HEADER_SIZE + read_u32(b, 14), t)
}

/// The header section of the complete frame at the start of `b`.
pub open spec fn frame_headers(b: Seq<u8>) -> Seq<u8> {
    b.subrange(FRAME_HEADER_SIZE as int, FRAME_HEADER_SIZE + read_u32(b, 14))
}

/// Skipping PUB frames while nobody subscribes, at most `k` more: each is
/// counted as published when publishing is unrestricted; otherwise its
/// payload is cut apart and it is counted when allowed and refused when not.
pub open spec fn drain_fold(b: Seq<u8>, max: usize, auth: AuthContext, k: nat, acc: FastView) -> FastView
    decreases k,
{
    if k == 0 || !starts_pub(b) {
        FastView { status: FastStatus::Done, rest: b, ..acc }
    } else {
        match peek_pub_spec(b, max) {
            Err(e) => FastView { status: FastStatus::PeekFailed(e), rest: b, ..acc },
            Ok(None) => FastView { status: FastStatus::Done, rest: b, ..acc },
            Ok(Some(t)) => if auth.publish_patterns@.len() == 0 {
                drain_fold(b.subrange(t, b.len() as int), max, auth, (k - 1) as nat,
                    FastView { processed: acc.processed + 1, published: acc.published + 1, ..acc })
            } else {
                let payload = frame_payload(b, t);
                match publish_layout_spec(payload) {
                    None => FastView { status: FastStatus::Malformed, rest: b, ..acc },
                    Some((s, _, _)) => if publish_permitted(auth, payload.subrange(s.0, s.1)) {
                        drain_fold(b.subrange(t, b.len() as int), max, auth, (k - 1) as nat,
                            FastView { processed: acc.processed + 1, published: acc.published + 1, ..acc })
                    } else {
                        drain_fold(b.subrange(t, b.len() as int), max, auth, (k - 1) as nat,
                            FastView { processed: acc.processed + 1, denied: acc.denied.push(read_u64(b, 6)), ..acc })
                    },
                }
            },
        }
    }
}

/// Taking PUB frames to publish, at most `k` more: each frame's command is
/// decoded; allowed publishes are kept and the others refused.
pub open spec fn take_fold(b: Seq<u8>, max: usize, auth: AuthContext, k: nat, acc: FastView) -> FastView
    decreases k,
{
    if k == 0 || !starts_pub(b) {
        FastView { status: FastStatus::Done, rest: b, ..acc }
    } else {
        match peek_pub_spec(b, max) {
            Err(e) => FastView { status: FastStatus::PeekFailed(e), rest: b, ..acc },
            Ok(None) => FastView { status: FastStatus::Done, rest: b, ..acc },
            Ok(Some(t)) => {
                let payload = frame_payload(b, t);
                let hdr = frame_headers(b);
                let rest = b.subrange(t, b.len() as int);
                match publish_layout_spec(payload) {
                    None => FastView { status: FastStatus::Malformed, rest, ..acc },
                    Some((s, _, _)) => if hdr.len() > 0 && decode_headers_spec(hdr) is None {
                        FastView { status: FastStatus::Malformed, rest, ..acc }
                    } else if publish_permitted(auth, payload.subrange(s.0, s.1)) {
                        take_fold(rest, max, auth, (k - 1) as nat,
                            FastView { processed: acc.processed + 1, subjects: acc.subjects.push(payload.subrange(s.0, s.1)), ..acc })
                    } else {
                        take_fold(rest, max, auth, (k - 1) as nat,
                            FastView { processed: acc.processed + 1, denied: acc.denied.push(read_u64(b, 6)), ..acc })
                    },
                }
            },
        }
    }
}

/// A run that has done nothing yet.
pub open spec fn fresh_run() -> FastView {
    FastView { status: FastStatus::Done, processed: 0, published: 0, rest: Seq::empty(), denied: Seq::empty(), subjects: Seq::empty() }
}

/// The result a run gives: how it ended, and whether it took a frame and
/// how many publishes it counted.
pub open spec fn run_result(v: FastView, max: usize, r: Result<(bool, u64), ProtocolError>) -> bool {
    match v.status {
        FastStatus::Done => r == Ok::<(bool, u64), ProtocolError>((v.processed > 0, v.published as u64)),
        FastStatus::PeekFailed(e) => r matches Err(x) && peek_error_is(e, max, x),
        FastStatus::Malformed => r matches Err(ProtocolError::DecodingError(_)),
    }
}

/// Drops the first `n` bytes of the buffer.
fn advance(buf: &mut Vec<u8>, n: usize)
    requires
        n <= old(buf)@.len(),
    ensures
        final(buf)@ == old(buf)@.subrange(n as int, old(buf)@.len() as int),
{
    let rest = copy_range(buf.as_slice(), n, buf.len());
    *buf = rest;
}

/// The broker's routing state is as it was.
pub open spec fn broker_kept<D: DeliveryHandle>(a: BrokerCore<D>, b: BrokerCore<D>) -> bool {
    &&& b.wf()
    &&& b.subs() == a.subs()
    &&& b.router_view() == a.router_view()
    &&& b.groups() == a.groups()
    &&& b.counters() == a.counters()
    &&& b.next_id() == a.next_id()
    &&& b.sent_log() == a.sent_log()
    &&& b.outcome_log() == a.outcome_log()
}

/// Skips a run of PUB frames while nobody subscribes, checking each
/// against the publish permissions (see `drain_fold`); the correlation ids
/// of refused publishes are added to `denied`. Gives whether a frame was
/// taken and how many publishes were counted.
pub fn drain_publish_batch_without_subscribers<D: DeliveryHandle>(
    read_buf: &mut Vec<u8>,
    broker: &mut BrokerCore<D>,
    auth_ctx: &AuthContext,
    denied: &mut Vec<u64>,
    max_frame_size: usize,
) -> (r: Result<(bool, u64), ProtocolError>)
    requires
        old(broker).wf(),
    ensures
        broker_kept(*old(broker), *final(broker)),
        ({
            let v = drain_fold(old(read_buf)@, max_frame_size, *auth_ctx, NO_SUB_PUB_BATCH_LIMIT as nat, fresh_run());
            &&& final(read_buf)@ == v.rest
            &&& final(denied)@ == old(denied)@ + v.denied
            &&& run_result(v, max_frame_size, r)
        }),
{
    let ghost b0 = *broker;
    let ghost buf0 = read_buf@;
    let ghost den0 = denied@;
    let ghost auth = *auth_ctx;
    let mut processed: usize = 0;
    let mut published: u64 = 0;
    let ghost mut acc = fresh_run();
    let mut done = false;
    assert(den0 + acc.denied =~= den0);
    if auth_ctx.is_publish_unrestricted() {
        while !done && processed < NO_SUB_PUB_BATCH_LIMIT && next_frame_is_pub(read_buf.as_slice())
            invariant
                broker_kept(b0, *broker),
                b0 == *old(broker),
                buf0 == old(read_buf)@,
                den0 == old(denied)@,
                auth == *auth_ctx,
                auth.publish_patterns@.len() == 0,
                processed <= NO_SUB_PUB_BATCH_LIMIT,
                acc.processed == processed,
                acc.published == published,
                published == processed,
                acc.status == FastStatus::Done,
                denied@ == den0 + acc.denied,
                drain_fold(buf0, max_frame_size, auth, NO_SUB_PUB_BATCH_LIMIT as nat, fresh_run())
                    == drain_fold(read_buf@, max_frame_size, auth, (NO_SUB_PUB_BATCH_LIMIT - processed) as nat, acc),
                done ==> drain_fold(read_buf@, max_frame_size, auth, (NO_SUB_PUB_BATCH_LIMIT - processed) as nat, acc)
                    == (FastView { rest: read_buf@, ..acc }),
            decreases NO_SUB_PUB_BATCH_LIMIT - processed, (if done { 0int } else { 1int }),
        {
            match peek_pub_frame_total(read_buf.as_slice(), max_frame_size) {
                Ok(Some(total)) => {
                    let ghost cur = read_buf@;
                    advance(read_buf, total);
                    proof {
                        acc = FastView { processed: acc.processed + 1, published: acc.published + 1, ..acc };
                    }
                    processed = processed + 1;
                    published = published + 1;
                },
                Ok(None) => {
                    done = true;
                },
                Err(e) => {
                    proof {
                        let k = (NO_SUB_PUB_BATCH_LIMIT - processed) as nat;
                        match peek_pub_spec(read_buf@, max_frame_size) {
                            Err(pe) => {
                                assert(drain_fold(read_buf@, max_frame_size, auth, k, acc)
                                    == FastView { status: FastStatus::PeekFailed(pe), rest: read_buf@, ..acc });
                                assert(peek_error_is(pe, max_frame_size, e));
                                let v = drain_fold(buf0, max_frame_size, auth, NO_SUB_PUB_BATCH_LIMIT as nat, fresh_run());
                                assert(v.status == FastStatus::PeekFailed(pe));
                                assert(run_result(v, max_frame_size, Err::<(bool, u64), ProtocolError>(e)));
                                assert(broker_kept(b0, *broker));
                                assert(read_buf@ == v.rest);
                                assert(denied@ == den0 + v.denied);
                            },
                            _ => {
                                assert(false);
                            },
                        }
                    }
                    return Err(e);
                },
            }
        }
        return Ok((processed > 0, processed as u64));
    }
    while !done && processed < NO_SUB_PUB_BATCH_LIMIT && next_frame_is_pub(read_buf.as_slice())
        invariant
            broker_kept(b0, *broker),
            b0 == *old(broker),
            buf0 == old(read_buf)@,
            den0 == old(denied)@,
            auth == *auth_ctx,
            auth.publish_patterns@.len() > 0,
            processed <= NO_SUB_PUB_BATCH_LIMIT,
            acc.processed == processed,
            acc.published == published,
            published <= processed,
            acc.status == FastStatus::Done,
            denied@ == den0 + acc.denied,
            drain_fold(buf0, max_frame_size, auth, NO_SUB_PUB_BATCH_LIMIT as nat, fresh_run())
                == drain_fold(read_buf@, max_frame_size, auth, (NO_SUB_PUB_BATCH_LIMIT - processed) as nat, acc),
            done ==> drain_fold(read_buf@, max_frame_size, auth, (NO_SUB_PUB_BATCH_LIMIT - processed) as nat, acc)
                == (FastView { rest: read_buf@, ..acc }),
        decreases NO_SUB_PUB_BATCH_LIMIT - processed, (if done { 0int } else { 1int }),
    {
        let ghost k = (NO_SUB_PUB_BATCH_LIMIT - processed) as nat;
        match peek_pub_frame_layout(read_buf.as_slice(), max_frame_size) {
            Ok(Some(layout)) => {
                let payload_bytes = copy_range(read_buf.as_slice(), layout.payload_start, layout.payload_end);
                match parse_publish_payload(payload_bytes.as_slice()) {
                    Ok(pl) => {
                        let subject = copy_range(payload_bytes.as_slice(), pl.subject.0, pl.subject.1);
                        let allowed = match publish_allowed(broker, auth_ctx, subject.as_slice()) {
                            Ok(a) => a,
                            Err(e) => {
                                return Err(e);
                            },
                        };
                        if allowed {
                            published = published + 1;
                            proof {
                                acc = FastView { processed: acc.processed + 1, published: acc.published + 1, ..acc };
                            }
                        } else {
                            denied.push(layout.correlation_id);
                            proof {
                                acc = FastView { processed: acc.processed + 1, denied: acc.denied.push(layout.correlation_id), ..acc };
                            }
                        }
                        advance(read_buf, layout.total);
                        processed = processed + 1;
                    },
                    Err(e) => {
                        proof {
                            assert(drain_fold(read_buf@, max_frame_size, auth, k, acc)
                                == FastView { status: FastStatus::Malformed, rest: read_buf@, ..acc });
                        }
                        return Err(e);
                    },
                }
            },
            Ok(None) => {
                done = true;
            },
            Err(e) => {
                proof {
                    match peek_pub_spec(read_buf@, max_frame_size) {
                        Err(pe) => {
                            assert(drain_fold(read_buf@, max_frame_size, auth, k, acc)
                                == FastView { status: FastStatus::PeekFailed(pe), rest: read_buf@, ..acc });
                        },
                        _ => {},
                    }
                }
                return Err(e);
            },
        }
    }
    Ok((processed > 0, published))
}

/// The broker after publishing the batch of the given subject bytes (see
/// `dispatch_publish_batch`).
pub open spec fn batch_published<D: DeliveryHandle>(a: BrokerCore<D>, b: BrokerCore<D>, subjects: Seq<Seq<u8>>) -> bool {
    let subs = subjects_of(subjects);
    let fold = crate::broker::batch_fold(a.subs(), a.router_view(), (a.groups(), 0), subs);
    &&& b.wf()
    &&& b.subs() == a.subs()
    &&& b.router_view() == a.router_view()
    &&& b.next_id() == a.next_id()
    &&& b.groups() == fold.0
    &&& crate::metrics::outcomes_recorded(crate::broker::with_published(a.counters(), subs.len() as u64), b.counters(), fold.1)
    &&& b.sent_log().len() >= a.sent_log().len()
    &&& b.sent_log().take(a.sent_log().len() as int) == a.sent_log()
    &&& b.outcome_log().len() == a.outcome_log().len() + fold.1
    &&& crate::metrics::logged_since(
        crate::broker::with_published(a.counters(), subs.len() as u64),
        b.counters(),
        a.outcome_log(),
        b.outcome_log(),
    )
}

/// Takes a run of PUB frames off the buffer. While nobody subscribes and
/// no wildcard subscription may exist, the frames are only counted (see
/// `drain_publish_batch_without_subscribers`). Otherwise up to 128 frames
/// are decoded (see `take_fold`): refused publishes are reported in
/// `denied`, and once the run ends normally the allowed ones are published
/// as one batch. Gives whether a frame was taken, and the publishes counted
/// by the first way.
pub fn dispatch_publish_batch_from_read_buf<D: DeliveryHandle>(
    read_buf: &mut Vec<u8>,
    broker: &mut BrokerCore<D>,
    conn_id: ConnectionId,
    auth_ctx: &AuthContext,
    denied: &mut Vec<u64>,
    max_frame_size: usize,
) -> (r: Result<(bool, u64), ProtocolError>)
    requires
        old(broker).wf(),
    ensures
        !(old(broker).counters().active_subscriptions > 0) && !old(broker).router_view().wildcard_flag() ==> {
            let v = drain_fold(old(read_buf)@, max_frame_size, *auth_ctx, NO_SUB_PUB_BATCH_LIMIT as nat, fresh_run());
            &&& broker_kept(*old(broker), *final(broker))
            &&& final(read_buf)@ == v.rest
            &&& final(denied)@ == old(denied)@ + v.denied
            &&& run_result(v, max_frame_size, r)
        },
        old(broker).counters().active_subscriptions > 0 || old(broker).router_view().wildcard_flag() ==> {
            let v = take_fold(old(read_buf)@, max_frame_size, *auth_ctx, PUB_BATCH_LIMIT as nat, fresh_run());
            &&& final(read_buf)@ == v.rest
            &&& final(denied)@ == old(denied)@ + v.denied
            &&& v.published == 0
            &&& run_result(v, max_frame_size, r)
            &&& if v.status == FastStatus::Done && v.subjects.len() > 0 {
                batch_published(*old(broker), *final(broker), v.subjects)
            } else {
                broker_kept(*old(broker), *final(broker))
            }
        },
{
    if !broker.has_active_subscriptions() && !broker.router_has_wildcards() {
        return drain_publish_batch_without_subscribers(read_buf, broker, auth_ctx, denied, max_frame_size);
    }
    let ghost b0 = *broker;
    let ghost buf0 = read_buf@;
    let ghost den0 = denied@;
    let ghost auth = *auth_ctx;
    let mut processed: usize = 0;
    let mut commands: Vec<PublishCommand> = Vec::new();
    let ghost mut acc = fresh_run();
    let mut done = false;
    assert(den0 + acc.denied =~= den0);
    assert(pub_subject_bytes(commands@) =~= acc.subjects);
    while !done && processed < PUB_BATCH_LIMIT && next_frame_is_pub(read_buf.as_slice())
        invariant
            broker_kept(b0, *broker),
            b0 == *old(broker),
            b0.counters().active_subscriptions > 0 || b0.router_view().wildcard_flag(),
            buf0 == old(read_buf)@,
            den0 == old(denied)@,
            auth == *auth_ctx,
            processed <= PUB_BATCH_LIMIT,
            acc.processed == processed,
            acc.published == 0,
            acc.status == FastStatus::Done,
            denied@ == den0 + acc.denied,
            pub_subject_bytes(commands@) == acc.subjects,
            take_fold(buf0, max_frame_size, auth, PUB_BATCH_LIMIT as nat, fresh_run())
                == take_fold(read_buf@, max_frame_size, auth, (PUB_BATCH_LIMIT - processed) as nat, acc),
            done ==> take_fold(read_buf@, max_frame_size, auth, (PUB_BATCH_LIMIT - processed) as nat, acc)
                == (FastView { rest: read_buf@, ..acc }),
        decreases PUB_BATCH_LIMIT - processed, (if done { 0int } else { 1int }),
    {
        let ghost k = (PUB_BATCH_LIMIT - processed) as nat;
        let ghost cur = read_buf@;
        match peek_pub_frame_layout(read_buf.as_slice(), max_frame_size) {
            Ok(Some(layout)) => {
                match decode_publish_command_from_buf(read_buf, layout) {
                    Ok((command, correlation_id)) => {
                        let allowed = match publish_allowed(broker, auth_ctx, command.subject.as_slice()) {
                            Ok(a) => a,
                            Err(e) => {
                                return Err(e);
                            },
                        };
                        if allowed {
                            let ghost subj = command.subject@;
                            let ghost cs0 = commands@;
                            commands.push(command);
                            proof {
                                assert(pub_subject_bytes(commands@) =~= pub_subject_bytes(cs0).push(subj));
                                acc = FastView { processed: acc.processed + 1, subjects: acc.subjects.push(subj), ..acc };
                            }
                        } else {
                            denied.push(correlation_id);
                            proof {
                                acc = FastView { processed: acc.processed + 1, denied: acc.denied.push(correlation_id), ..acc };
                            }
                        }
                        processed = processed + 1;
                    },
                    Err(e) => {
                        proof {
                            assert(take_fold(cur, max_frame_size, auth, k, acc)
                                == FastView { status: FastStatus::Malformed, rest: read_buf@, ..acc });
                        }
                        return Err(e);
                    },
                }
            },
            Ok(None) => {
                done = true;
            },
            Err(e) => {
                proof {
                    match peek_pub_spec(read_buf@, max_frame_size) {
                        Err(pe) => {
                            assert(take_fold(read_buf@, max_frame_size, auth, k, acc)
                                == FastView { status: FastStatus::PeekFailed(pe), rest: read_buf@, ..acc });
                        },
                        _ => {},
                    }
                }
                return Err(e);
            },
        }
    }
    if commands.len() > 0 {
        dispatch_publish_batch(broker, conn_id, commands);
    }
    Ok((processed > 0, 0))
}

/// A run over PUB frames takes frames off the front only: what is left is
/// no longer, strictly shorter once a frame was taken, and a run that took
/// nothing and ended normally stopped at an incomplete frame.
proof fn lemma_drain_progress(b: Seq<u8>, max: usize, auth: AuthContext, k: nat, acc: FastView)
    ensures
        drain_fold(b, max, auth, k, acc).rest.len() <= b.len(),
        drain_fold(b, max, auth, k, acc).processed >= acc.processed,
        drain_fold(b, max, auth, k, acc).published <= acc.published + k,
        drain_fold(b, max, auth, k, acc).processed > acc.processed ==> drain_fold(b, max, auth, k, acc).rest.len() < b.len(),
        drain_fold(b, max, auth, k, acc).processed == acc.processed && drain_fold(b, max, auth, k, acc).status == FastStatus::Done
            ==> (k == 0 || !starts_pub(b) || peek_pub_spec(b, max) == Ok::<Option<int>, PeekError>(None))
                && drain_fold(b, max, auth, k, acc).rest == b,
    decreases k,
{
    if k == 0 || !starts_pub(b) {
    } else {
        match peek_pub_spec(b, max) {
            Ok(Some(t)) => {
                let rest = b.subrange(t, b.len() as int);
                if auth.publish_patterns@.len() == 0 {
                    lemma_drain_progress(rest, max, auth, (k - 1) as nat,
                        FastView { processed: acc.processed + 1, published: acc.published + 1, ..acc });
                } else {
                    let payload = frame_payload(b, t);
                    match publish_layout_spec(payload) {
                        Some((sr, _, _)) => {
                            if publish_permitted(auth, payload.subrange(sr.0, sr.1)) {
                                lemma_drain_progress(rest, max, auth, (k - 1) as nat,
                                    FastView { processed: acc.processed + 1, published: acc.published + 1, ..acc });
                            } else {
                                lemma_drain_progress(rest, max, auth, (k - 1) as nat,
                                    FastView { processed: acc.processed + 1, denied: acc.denied.push(read_u64(b, 6)), ..acc });
                            }
                        },
                        None => {},
                    }
                }
            },
            _ => {},
        }
    }
}

/// As `lemma_drain_progress`, for the decoding run.
proof fn lemma_take_progress(b: Seq<u8>, max: usize, auth: AuthContext, k: nat, acc: FastView)
    ensures
        take_fold(b, max, auth, k, acc).rest.len() <= b.len(),
        take_fold(b, max, auth, k, acc).processed >= acc.processed,
        take_fold(b, max, auth, k, acc).published == acc.published,
        take_fold(b, max, auth, k, acc).processed > acc.processed ==> take_fold(b, max, auth, k, acc).rest.len() < b.len(),
        take_fold(b, max, auth, k, acc).processed == acc.processed && take_fold(b, max, auth, k, acc).status == FastStatus::Done
            ==> (k == 0 || !starts_pub(b) || peek_pub_spec(b, max) == Ok::<Option<int>, PeekError>(None))
                && take_fold(b, max, auth, k, acc).rest == b,
    decreases k,
{
    if k == 0 || !starts_pub(b) {
    } else {
        match peek_pub_spec(b, max) {
            Ok(Some(t)) => {
                let payload = frame_payload(b, t);
                let hdr = frame_headers(b);
                let rest = b.subrange(t, b.len() as int);
                match publish_layout_spec(payload) {
                    Some((sr, _, _)) => {
                        if hdr.len() > 0 && decode_headers_spec(hdr) is None {
                        } else if publish_permitted(auth, payload.subrange(sr.0, sr.1)) {
                            lemma_take_progress(rest, max, auth, (k - 1) as nat,
                                FastView { processed: acc.processed + 1, subjects: acc.subjects.push(payload.subrange(sr.0, sr.1)), ..acc });
                        } else {
                            lemma_take_progress(rest, max, auth, (k - 1) as nat,
                                FastView { processed: acc.processed + 1, denied: acc.denied.push(read_u64(b, 6)), ..acc });
                        }
                    },
                    None => {},
                }
            },
            _ => {},
        }
    }
}

/// The buffer does not yet hold the whole frame at its front.
pub open spec fn frame_incomplete(b: Seq<u8>, max: usize) -> bool {
    b.len() < FRAME_HEADER_SIZE || (declared_size(header_at(b)) <= max && b.len() < declared_size(header_at(b)))
}

/// Whether subscribing with the pattern tokens is allowed by `auth`: no
/// subscribe patterns, or one of them covers them.
pub open spec fn subscribe_permitted(auth: AuthContext, tokens: Seq<crate::subject_pattern::PTok>) -> bool {
    auth.subscribe_patterns@.len() == 0 || exists|i: int|
        0 <= i < auth.subscribe_patterns@.len() && covers(#[trigger] auth.subscribe_patterns@[i]@.tokens, tokens)
}

/// What a session does with a decoded command.
pub enum Verdict {
    /// Authenticates.
    Connect,
    /// Answers PONG.
    Pong,
    /// Ignores a command sent before CONNECT succeeded.
    Ignored,
    /// Refuses a SUB over the connection's limit.
    TooManySubscriptions,
    /// Refuses a SUB that the permissions do not cover.
    SubscribeDenied,
    /// Refuses a PUB that the permissions do not allow.
    PublishDenied,
    /// Carries the command out (see `dispatch`).
    Dispatch,
}

/// The verdict on `cmd` in state `state` with permissions `auth`, for a
/// connection holding `sub_count` subscriptions under the limit `max_subs`.
pub open spec fn verdict(state: SessionState, auth: AuthContext, sub_count: nat, max_subs: usize, cmd: BrokerCommand) -> Verdict {
    match cmd {
        BrokerCommand::Connect(_) => Verdict::Connect,
        BrokerCommand::Ping(_) => Verdict::Pong,
        BrokerCommand::Subscribe(s) => if state != SessionState::Connected {
            Verdict::Ignored
        } else if sub_count >= max_subs {
            Verdict::TooManySubscriptions
        } else if valid_pattern(trim(s.subject_pattern@)) && !subscribe_permitted(auth, parsed_pattern(s.subject_pattern@).tokens) {
            Verdict::SubscribeDenied
        } else {
            Verdict::Dispatch
        },
        BrokerCommand::Publish(p) => if state != SessionState::Connected {
            Verdict::Ignored
        } else if valid_utf8(p.subject@) && valid_subject(trim(decode_utf8(p.subject@))) && !publish_permitted(auth, p.subject@) {
            Verdict::PublishDenied
        } else {
            Verdict::Dispatch
        },
        _ => if state != SessionState::Connected { Verdict::Ignored } else { Verdict::Dispatch },
    }
}

/// A connection's session: its state, its permissions, publishes counted
/// but not yet added to the broker's counter, and the consumer bindings of
/// its subscriptions.
pub struct Session {
    pub state: SessionState,
    pub auth_ctx: AuthContext,
    pub local_published: u64,
    pub sub_consumers: SubConsumerMap,
}

/// The frame's payload is UTF-8 text `m`.
pub open spec fn error_reply(f: Frame, corr: u64, m: Seq<char>) -> bool {
    is_reply(f, FrameType::Error, corr, encode_utf8(m))
}

/// What handling a decoded command does (see `Session::handle_command`):
/// `s0`, `b0`, `st0` are the session, broker and store before, `s1`, `b1`,
/// `st1` after; `out` are the frames to send and `stop` whether handling
/// stops there.
pub open spec fn command_effect<D: DeliveryHandle>(
    s0: Session,
    s1: Session,
    b0: BrokerCore<D>,
    b1: BrokerCore<D>,
    st0: ManagerView,
    st1: ManagerView,
    conn_id: ConnectionId,
    config: ServerConfig,
    cmd: BrokerCommand,
    corr: u64,
    out: Seq<Frame>,
    stop: bool,
) -> bool {
    match verdict(s0.state, s0.auth_ctx, b0.subs().filter(on_conn(conn_id)).len(), config.max_subscriptions_per_connection, cmd) {
        Verdict::Connect => match cmd {
            BrokerCommand::Connect(c) => if stop {
                &&& s1.state == s0.state
                &&& s1.auth_ctx == s0.auth_ctx
                &&& s1.sub_consumers@ == s0.sub_consumers@
                &&& st1 == st0
                &&& broker_kept(b0, b1)
                &&& out.len() == 1
                &&& exists|m: String| #[trigger] auth_outcome(c.auth@, &config, Err(m)) && error_reply(out[0], corr, m@)
            } else {
                &&& s1.state == SessionState::Connected
                &&& auth_outcome(c.auth@, &config, Ok(s1.auth_ctx))
                &&& s1.sub_consumers@ == s0.sub_consumers@
                &&& st1 == st0
                &&& b1.subs() == b0.subs()
                &&& b1.groups() == b0.groups()
                &&& b1.router_view() == b0.router_view()
                &&& b1.next_id() == b0.next_id()
                &&& snapshot_of(b1.counters()) == (MetricsSnapshot {
                    active_connections: wrap_add(b0.counters().active_connections, 1),
                    total_connections: wrap_add(b0.counters().total_connections, 1),
                    ..snapshot_of(b0.counters())
                })
                &&& out.len() == 1 && is_reply(out[0], FrameType::Connack, 0, Seq::empty())
            },
            _ => false,
        },
        Verdict::Pong => {
            &&& !stop
            &&& s1.state == s0.state && s1.auth_ctx == s0.auth_ctx
            &&& s1.sub_consumers@ == s0.sub_consumers@
            &&& st1 == st0
            &&& broker_kept(b0, b1)
            &&& out.len() == 1 && is_reply(out[0], FrameType::Pong, 0, Seq::empty())
        },
        Verdict::Dispatch => {
            &&& !stop
            &&& s1.state == s0.state && s1.auth_ctx == s0.auth_ctx
            &&& dispatched(
                b0,
                b1,
                st0,
                st1,
                s0.sub_consumers@,
                s1.sub_consumers@,
                conn_id,
                cmd,
                corr,
                out,
            )
        },
        v => {
            &&& !stop
            &&& s1.state == s0.state && s1.auth_ctx == s0.auth_ctx
            &&& s1.sub_consumers@ == s0.sub_consumers@
            &&& st1 == st0
            &&& broker_kept(b0, b1)
            &&& match v {
                Verdict::Ignored => out.len() == 0,
                Verdict::TooManySubscriptions => out.len() == 1 && error_reply(out[0], corr,
                    "max subscriptions exceeded: "@ + decimal(config.max_subscriptions_per_connection as nat)),
                Verdict::SubscribeDenied => out.len() == 1 && error_reply(out[0], corr, "permission denied for subscribe"@),
                _ => out.len() == 1 && error_reply(out[0], corr, "permission denied for publish"@),
            }
        },
    }
}

/// How a pass of the frame loop ended.
#[derive(Clone, Copy, Debug, PartialEq, Eq, Structural)]
pub enum StepEnd {
    /// Go on with the next frame.
    Continue,
    /// The buffer holds no whole frame.
    Incomplete,
    /// A CONNECT failed.
    AuthFailed,
}

/// What the frame loop acts on: the session, the broker, the store's
/// contents and the bytes read but not handled yet.
pub struct LoopCfg<D> {
    pub session: Session,
    pub broker: BrokerCore<D>,
    pub store: ManagerView,
    pub buf: Seq<u8>,
}

pub open spec fn loop_cfg<D>(session: Session, broker: BrokerCore<D>, store: ManagerView, buf: Seq<u8>) -> LoopCfg<D> {
    LoopCfg { session, broker, store, buf }
}

/// The broker with only its counters changed, to `s`.
pub open spec fn recounted<D: DeliveryHandle>(a: BrokerCore<D>, b: BrokerCore<D>, s: MetricsSnapshot) -> bool {
    &&& b.wf()
    &&& b.subs() == a.subs()
    &&& b.router_view() == a.router_view()
    &&& b.groups() == a.groups()
    &&& b.next_id() == a.next_id()
    &&& snapshot_of(b.counters()) == s
}

/// One more protocol error counted.
pub open spec fn error_counted<D: DeliveryHandle>(a: BrokerCore<D>, b: BrokerCore<D>) -> bool {
    recounted(a, b, MetricsSnapshot { protocol_errors: wrap_add(a.counters().protocol_errors, 1), ..snapshot_of(a.counters()) })
}

/// `n` more publishes counted.
pub open spec fn published_added<D: DeliveryHandle>(a: BrokerCore<D>, b: BrokerCore<D>, n: u64) -> bool {
    recounted(a, b, MetricsSnapshot { messages_published: wrap_add(a.counters().messages_published, n), ..snapshot_of(a.counters()) })
}

/// The session's local count of publishes moved to the broker, where it
/// has one.
pub open spec fn flushed<D: DeliveryHandle>(s: Session, a: BrokerCore<D>, b: BrokerCore<D>) -> bool {
    if s.local_published > 0 {
        published_added(a, b, s.local_published)
    } else {
        b == a
    }
}

/// The session as before but for its local count of publishes, now `n`.
pub open spec fn recount_session(s0: Session, s1: Session, n: int) -> bool {
    &&& s1.state == s0.state
    &&& s1.auth_ctx == s0.auth_ctx
    &&& s1.sub_consumers@ == s0.sub_consumers@
    &&& s1.local_published == n
}

/// Whether a run over PUB frames publishes what it takes: some
/// subscription is counted, or a wildcard one may exist.
pub open spec fn fast_busy<D: DeliveryHandle>(b: BrokerCore<D>) -> bool {
    b.counters().active_subscriptions > 0 || b.router_view().wildcard_flag()
}

/// The run over PUB frames that a pass from `c` makes.
pub open spec fn fast_run<D: DeliveryHandle>(c: LoopCfg<D>, max: usize) -> FastView {
    if fast_busy(c.broker) {
        take_fold(c.buf, max, c.session.auth_ctx, PUB_BATCH_LIMIT as nat, fresh_run())
    } else {
        drain_fold(c.buf, max, c.session.auth_ctx, NO_SUB_PUB_BATCH_LIMIT as nat, fresh_run())
    }
}

/// The broker `b` after the run's publishes.
pub open spec fn fast_published<D: DeliveryHandle>(c: LoopCfg<D>, v: FastView, b: BrokerCore<D>) -> bool {
    if fast_busy(c.broker) && v.status == FastStatus::Done && v.subjects.len() > 0 {
        batch_published(c.broker, b, v.subjects)
    } else {
        broker_kept(c.broker, b)
    }
}

/// The first frames refuse the publishes with the given correlation ids.
pub open spec fn denied_replies(out: Seq<Frame>, denied: Seq<u64>) -> bool {
    &&& out.len() >= denied.len()
    &&& forall|i: int| 0 <= i < denied.len() ==> error_reply(#[trigger] out[i], denied[i], "permission denied for publish"@)
}

/// A pass that takes a run of PUB frames (see `fast_run`): refused
/// publishes are answered in order; counted publishes are added to the
/// session's local count, which moves to the broker once it reaches 4096;
/// a run that took nothing ends the loop; a bad frame is counted as a
/// protocol error, clears the buffer, and is answered with the reason.
pub open spec fn fast_step<D: DeliveryHandle>(c: LoopCfg<D>, d: LoopCfg<D>, out: Seq<Frame>, end: StepEnd, max: usize) -> bool {
    let v = fast_run(c, max);
    &&& d.store == c.store
    &&& denied_replies(out, v.denied)
    &&& exists|b: BrokerCore<D>| #[trigger] fast_published(c, v, b) && match v.status {
        FastStatus::Done => if v.processed > 0 {
            let n = c.session.local_published + v.published;
            &&& end == StepEnd::Continue
            &&& out.len() == v.denied.len()
            &&& d.buf == v.rest
            &&& if n >= LOCAL_PUBLISHED_FLUSH_THRESHOLD {
                recount_session(c.session, d.session, 0) && published_added(b, d.broker, n as u64)
            } else {
                recount_session(c.session, d.session, n) && d.broker == b
            }
        } else {
            &&& end == StepEnd::Incomplete
            &&& out.len() == v.denied.len()
            &&& d.buf == v.rest
            &&& recount_session(c.session, d.session, c.session.local_published as int)
            &&& d.broker == b
        },
        _ => exists|e: ProtocolError| #[trigger] run_result(v, max, Err::<(bool, u64), ProtocolError>(e)) && {
            &&& end == StepEnd::Continue
            &&& d.buf.len() == 0
            &&& recount_session(c.session, d.session, c.session.local_published as int)
            &&& error_counted(b, d.broker)
            &&& out.len() == v.denied.len() + 1
            &&& error_reply(out[v.denied.len() as int], 0, "decode error: "@ + protocol_error_text(e))
        },
    }
}

/// A pass that decodes one frame: a command is handled (see
/// `command_effect`); a frame without a command is counted as a protocol
/// error and answered; no whole frame moves the local count of publishes to
/// the broker and ends the loop; a frame that fails to decode moves the
/// local count too, is counted as a protocol error, clears the buffer, and
/// is answered with the reason.
pub open spec fn slow_step<D: DeliveryHandle>(
    c: LoopCfg<D>,
    d: LoopCfg<D>,
    out: Seq<Frame>,
    end: StepEnd,
    conn_id: ConnectionId,
    config: ServerConfig,
) -> bool {
    exists|after: Seq<u8>, r: Result<Option<Frame>, ProtocolError>| #[trigger] frame_decode_result(c.buf, config.max_frame_size, after, r) && match r {
        Ok(Some(f)) => {
            &&& d.buf == after
            &&& exists|rc: Result<BrokerCommand, ProtocolError>| #[trigger] from_frame_result(f, rc) && match rc {
                Ok(cmd) => exists|stop: bool| #[trigger] command_effect(c.session, d.session, c.broker, d.broker, c.store, d.store, conn_id,
                    config, cmd, f.header.correlation_id, out, stop) && {
                    &&& d.session.local_published == c.session.local_published
                    &&& end == (if stop { StepEnd::AuthFailed } else { StepEnd::Continue })
                },
                Err(e) => {
                    &&& end == StepEnd::Continue
                    &&& recount_session(c.session, d.session, c.session.local_published as int)
                    &&& d.store == c.store
                    &&& error_counted(c.broker, d.broker)
                    &&& out.len() == 1
                    &&& error_reply(out[0], 0, "protocol error: "@ + protocol_error_text(e))
                },
            }
        },
        Ok(None) => {
            &&& end == StepEnd::Incomplete
            &&& d.buf == c.buf
            &&& d.store == c.store
            &&& recount_session(c.session, d.session, 0)
            &&& flushed(c.session, c.broker, d.broker)
            &&& out.len() == 0
        },
        Err(e) => {
            &&& end == StepEnd::Continue
            &&& d.buf.len() == 0
            &&& d.store == c.store
            &&& recount_session(c.session, d.session, 0)
            &&& exists|m: BrokerCore<D>| #[trigger] flushed(c.session, c.broker, m) && error_counted(m, d.broker)
            &&& out.len() == 1
            &&& error_reply(out[0], 0, "decode error: "@ + protocol_error_text(e))
        },
    }
}

/// One pass of the frame loop from `c` to `d`, giving the frames `out`:
/// a connected session whose buffer starts with a PUB frame takes the fast
/// way, any other pass decodes one frame.
pub open spec fn loop_step<D: DeliveryHandle>(
    c: LoopCfg<D>,
    d: LoopCfg<D>,
    out: Seq<Frame>,
    end: StepEnd,
    conn_id: ConnectionId,
    config: ServerConfig,
) -> bool {
    if c.session.state == SessionState::Connected && starts_pub(c.buf) {
        fast_step(c, d, out, end, config.max_frame_size)
    } else {
        slow_step(c, d, out, end, conn_id, config)
    }
}

/// How the frame loop ends: after a failed CONNECT, or with no whole frame
/// left.
pub open spec fn loop_end(auth_failed: bool) -> StepEnd {
    if auth_failed {
        StepEnd::AuthFailed
    } else {
        StepEnd::Incomplete
    }
}

/// A whole run of the frame loop through the configurations `trace`, the
/// i-th pass giving the frames `outs[i]`: every pass but the last goes on,
/// and the last ends as `last` says.
pub open spec fn loop_run<D: DeliveryHandle>(
    trace: Seq<LoopCfg<D>>,
    outs: Seq<Seq<Frame>>,
    conn_id: ConnectionId,
    config: ServerConfig,
    last: StepEnd,
) -> bool {
    &&& outs.len() >= 1
    &&& trace.len() == outs.len() + 1
    &&& forall|i: int| 0 <= i < outs.len() - 1 ==> loop_step(trace[i], trace[i + 1], #[trigger] outs[i], StepEnd::Continue, conn_id, config)
    &&& loop_step(trace[outs.len() - 1], trace[outs.len() as int], outs[outs.len() - 1], last, conn_id, config)
}

impl Session {
    /// A new session: state `New`, unrestricted, nothing counted or bound.
    pub fn new() -> (r: Session)
        ensures
            r.state == SessionState::New,
            r.auth_ctx.username is None,
            r.auth_ctx.publish_patterns@.len() == 0,
            r.auth_ctx.subscribe_patterns@.len() == 0,
            r.local_published == 0,
            r.sub_consumers@ == Map::<u64, (Seq<char>, Seq<char>)>::empty(),
    {
        Session {
            state: SessionState::New,
            auth_ctx: AuthContext::unrestricted(),
            local_published: 0,
            sub_consumers: SubConsumerMap::new(),
        }
    }

    /// Handles a decoded command with correlation id `correlation_id` as the
    /// verdict says; gives the frames to send, and whether to stop handling
    /// the frames read so far (after a failed CONNECT). CONNECT with good
    /// credentials connects the session with their permissions and counts the
    /// connection; with bad ones, it is answered with the reason.
    pub fn handle_command<D: DeliveryHandle>(
        &mut self,
        cmd: BrokerCommand,
        correlation_id: u64,
        broker: &mut BrokerCore<D>,
        store: &mut ConsumerManager,
        conn_id: ConnectionId,
        config: &ServerConfig,
        delivery: &Arc<D>,
    ) -> (r: (Vec<Frame>, bool))
        requires
            old(broker).wf(),
            old(store).wf(),
            old(broker).next_id() < u64::MAX,
            old(broker).router_view().trie_count() < usize::MAX,
            forall|j: int| 0 <= j < old(store)@.consumers.len() ==> (#[trigger] old(store)@.consumers[j]).1.state.acked_count < u64::MAX,
        ensures
            final(broker).wf(),
            final(store).wf(),
            final(self).local_published == old(self).local_published,
            final(broker).next_id() <= old(broker).next_id() + 1,
            final(broker).router_view().trie_count() <= old(broker).router_view().trie_count() + 1,
            final(store)@.consumers.len() == old(store)@.consumers.len(),
            forall|j: int| 0 <= j < final(store)@.consumers.len() ==> (#[trigger] final(store)@.consumers[j]).1.state.acked_count
                <= old(store)@.consumers[j].1.state.acked_count + 1,
            command_effect(*old(self), *final(self), *old(broker), *final(broker), old(store)@, final(store)@, conn_id, *config, cmd, correlation_id, r.0@, r.1),
    {
        let ghost b0 = *broker;
        let ghost state0 = self.state;
        let ghost count = broker.subs().filter(on_conn(conn_id)).len();
        let mut out: Vec<Frame> = Vec::new();
        match &cmd {
            BrokerCommand::Connect(c) => {
                match validate_auth(&c.auth, config) {
                    Ok(ctx) => {
                        self.auth_ctx = ctx;
                        self.state = SessionState::Connected;
                        let m = broker.metrics_mut();
                        m.inc_active_connections();
                        let ghost x = *m;
                        proof {
                            BrokerCore::lemma_counters_free(b0, x);
                        }
                        out.push(Frame::new(FrameType::Connack, 0));
                        return (out, false);
                    },
                    Err(msg) => {
                        let f = text_reply(FrameType::Error, correlation_id, msg.as_str());
                        assert(auth_outcome(c.auth@, config, Err(msg)));
                        out.push(f);
                        return (out, true);
                    },
                }
            },
            BrokerCommand::Ping(_) => {
                out.push(Frame::new(FrameType::Pong, 0));
                return (out, false);
            },
            _ => {},
        }
        if self.state != SessionState::Connected {
            return (out, false);
        }
        match &cmd {
            BrokerCommand::Subscribe(s) => {
                let count_now = broker.subscription_count_for_connection(conn_id);
                if count_now >= config.max_subscriptions_per_connection {
                    let text = text_then_number("max subscriptions exceeded: ", config.max_subscriptions_per_connection as u64);
                    out.push(text_reply(FrameType::Error, correlation_id, text.as_str()));
                    return (out, false);
                }
                match SubjectPattern::parse(s.subject_pattern.as_str()) {
                    Ok(pattern) => {
                        if !self.auth_ctx.can_subscribe(&pattern) {
                            out.push(text_reply(FrameType::Error, correlation_id, "permission denied for subscribe"));
                            return (out, false);
                        }
                    },
                    Err(_) => {},
                }
            },
            BrokerCommand::Publish(p) => {
                match utf8_text(p.subject.as_slice()) {
                    Some(subject_str) => match broker.parse_subject(subject_str.as_str()) {
                        Ok(subject) => {
                            if !self.auth_ctx.can_publish(&subject) {
                                out.push(text_reply(FrameType::Error, correlation_id, "permission denied for publish"));
                                return (out, false);
                            }
                        },
                        Err(_) => {},
                    },
                    None => {},
                }
            },
            _ => {},
        }
        let frames = dispatch(broker, store, conn_id, cmd, correlation_id, delivery, &mut self.sub_consumers);
        (frames, false)
    }
    /// Adds the locally counted publishes to the broker's counter.
    fn flush_published<D: DeliveryHandle>(&mut self, broker: &mut BrokerCore<D>)
        requires
            old(broker).wf(),
        ensures
            final(self).local_published == 0,
            final(self).state == old(self).state,
            final(self).auth_ctx == old(self).auth_ctx,
            final(self).sub_consumers@ == old(self).sub_consumers@,
            final(broker).wf(),
            final(broker).subs() == old(broker).subs(),
            final(broker).router_view() == old(broker).router_view(),
            final(broker).groups() == old(broker).groups(),
            final(broker).next_id() == old(broker).next_id(),
            final(broker).sent_log() == old(broker).sent_log(),
            final(broker).outcome_log() == old(broker).outcome_log(),
            snapshot_of(final(broker).counters()) == (MetricsSnapshot {
                messages_published: wrap_add(old(broker).counters().messages_published, old(self).local_published),
                ..snapshot_of(old(broker).counters())
            }),
    {
        let ghost b0 = *broker;
        let m = broker.metrics_mut();
        m.inc_published_by(self.local_published);
        let ghost x = *m;
        proof {
            BrokerCore::lemma_counters_free(b0, x);
        }
        self.local_published = 0;
    }

    /// Counts a protocol error.
    fn count_protocol_error<D: DeliveryHandle>(broker: &mut BrokerCore<D>)
        requires
            old(broker).wf(),
        ensures
            final(broker).wf(),
            final(broker).subs() == old(broker).subs(),
            final(broker).router_view() == old(broker).router_view(),
            final(broker).groups() == old(broker).groups(),
            final(broker).next_id() == old(broker).next_id(),
            snapshot_of(final(broker).counters()) == (MetricsSnapshot {
                protocol_errors: wrap_add(old(broker).counters().protocol_errors, 1),
                ..snapshot_of(old(broker).counters())
            }),
    {
        let ghost b0 = *broker;
        let m = broker.metrics_mut();
        m.inc_protocol_errors();
        let ghost x = *m;
        proof {
            BrokerCore::lemma_counters_free(b0, x);
        }
    }

    /// One pass of the frame loop (see `loop_step`): a run of PUB frames the
    /// fast way, or one frame decoded and handled.
    fn frame_step<D: DeliveryHandle>(
        &mut self,
        read_buf: &mut Vec<u8>,
        broker: &mut BrokerCore<D>,
        store: &mut ConsumerManager,
        conn_id: ConnectionId,
        config: &ServerConfig,
        delivery: &Arc<D>,
    ) -> (r: (Vec<Frame>, StepEnd))
        requires
            old(broker).wf(),
            old(store).wf(),
            old(self).local_published < LOCAL_PUBLISHED_FLUSH_THRESHOLD,
            old(broker).next_id() + old(read_buf)@.len() < u64::MAX,
            old(broker).router_view().trie_count() + old(read_buf)@.len() < usize::MAX,
            forall|j: int| 0 <= j < old(store)@.consumers.len() ==>
                (#[trigger] old(store)@.consumers[j]).1.state.acked_count + old(read_buf)@.len() < u64::MAX,
        ensures
            final(broker).wf(),
            final(store).wf(),
            final(self).local_published < LOCAL_PUBLISHED_FLUSH_THRESHOLD,
            final(read_buf)@.len() <= old(read_buf)@.len(),
            r.1 != StepEnd::Incomplete ==> final(read_buf)@.len() < old(read_buf)@.len(),
            r.1 == StepEnd::Incomplete ==> frame_incomplete(final(read_buf)@, config.max_frame_size),
            final(broker).next_id() + final(read_buf)@.len() <= old(broker).next_id() + old(read_buf)@.len(),
            final(broker).router_view().trie_count() + final(read_buf)@.len()
                <= old(broker).router_view().trie_count() + old(read_buf)@.len(),
            final(store)@.consumers.len() == old(store)@.consumers.len(),
            forall|j: int| 0 <= j < final(store)@.consumers.len() ==>
                (#[trigger] final(store)@.consumers[j]).1.state.acked_count + final(read_buf)@.len()
                    <= old(store)@.consumers[j].1.state.acked_count + old(read_buf)@.len(),
            loop_step(
                loop_cfg(*old(self), *old(broker), old(store)@, old(read_buf)@),
                loop_cfg(*final(self), *final(broker), final(store)@, final(read_buf)@),
                r.0@,
                r.1,
                conn_id,
                *config,
            ),
    {
        let ghost c = loop_cfg(*self, *broker, store@, read_buf@);
        let max = config.max_frame_size;
        let mut chunk: Vec<Frame> = Vec::new();
        if self.state == SessionState::Connected && next_frame_is_pub(read_buf.as_slice()) {
            let mut denied: Vec<u64> = Vec::new();
            let ghost auth = self.auth_ctx;
            let result = dispatch_publish_batch_from_read_buf(read_buf, broker, conn_id, &self.auth_ctx, &mut denied, max);
            let ghost b_mid = *broker;
            let ghost v = fast_run(c, max);
            proof {
                lemma_drain_progress(c.buf, max, auth, NO_SUB_PUB_BATCH_LIMIT as nat, fresh_run());
                lemma_take_progress(c.buf, max, auth, PUB_BATCH_LIMIT as nat, fresh_run());
                assert(denied@ =~= v.denied);
                assert(fast_published(c, v, b_mid));
            }
            let mut i: usize = 0;
            while i < denied.len()
                invariant
                    i <= denied@.len(),
                    chunk@.len() == i,
                    forall|j: int| 0 <= j < i ==> error_reply(#[trigger] chunk@[j], denied@[j], "permission denied for publish"@),
                decreases denied@.len() - i,
            {
                chunk.push(crate::wire::publish_denied_frame(denied[i]));
                i = i + 1;
            }
            let ghost denied_len = chunk@.len();
            match result {
                Ok((true, published)) => {
                    self.local_published = self.local_published + published;
                    if self.local_published >= LOCAL_PUBLISHED_FLUSH_THRESHOLD {
                        self.flush_published(broker);
                    }
                    proof {
                        assert(loop_step(c, loop_cfg(*self, *broker, store@, read_buf@), chunk@, StepEnd::Continue, conn_id, *config));
                    }
                    (chunk, StepEnd::Continue)
                },
                Ok((false, _)) => {
                    proof {
                        assert(loop_step(c, loop_cfg(*self, *broker, store@, read_buf@), chunk@, StepEnd::Incomplete, conn_id, *config));
                    }
                    (chunk, StepEnd::Incomplete)
                },
                Err(e) => {
                    Self::count_protocol_error(broker);
                    read_buf.clear();
                    let text = concat_text("decode error: ", e.to_string().as_str());
                    chunk.push(text_reply(FrameType::Error, 0, text.as_str()));
                    proof {
                        assert(run_result(v, max, Err::<(bool, u64), ProtocolError>(e)));
                        assert(error_reply(chunk@[denied_len as int], 0, "decode error: "@ + protocol_error_text(e)));
                        assert(loop_step(c, loop_cfg(*self, *broker, store@, read_buf@), chunk@, StepEnd::Continue, conn_id, *config));
                    }
                    (chunk, StepEnd::Continue)
                },
            }
        } else {
            let decoded = Frame::decode_from(read_buf, max);
            let ghost after = read_buf@;
            let ghost dr = decoded;
            match decoded {
                Ok(Some(frame)) => {
                    let correlation_id = frame.header.correlation_id;
                    let ghost f = frame;
                    let parsed = BrokerCommand::from_frame(frame);
                    let ghost rc = parsed;
                    match parsed {
                        Ok(cmd) => {
                            let ghost cmd_g = cmd;
                            let (frames, stop) = self.handle_command(cmd, correlation_id, broker, store, conn_id, config, delivery);
                            let end = if stop {
                                StepEnd::AuthFailed
                            } else {
                                StepEnd::Continue
                            };
                            proof {
                                assert(command_effect(c.session, *self, c.broker, *broker, c.store, store@, conn_id, *config, cmd_g,
                                    f.header.correlation_id, frames@, stop));
                                assert(from_frame_result(f, rc));
                                assert(frame_decode_result(c.buf, max, after, dr));
                                let d = loop_cfg(*self, *broker, store@, read_buf@);
                                assert(dr == Ok::<Option<Frame>, ProtocolError>(Some(f)));
                                assert(rc == Ok::<BrokerCommand, ProtocolError>(cmd_g));
                                assert(d.buf == after);
                                assert(command_effect(c.session, d.session, c.broker, d.broker, c.store, d.store, conn_id, *config, cmd_g,
                                    f.header.correlation_id, frames@, stop));
                                assert(d.session.local_published == c.session.local_published);
                                assert(slow_step(c, d, frames@, end, conn_id, *config));
                                assert(loop_step(c, loop_cfg(*self, *broker, store@, read_buf@), frames@, end, conn_id, *config));
                            }
                            (frames, end)
                        },
                        Err(e) => {
                            Self::count_protocol_error(broker);
                            let text = concat_text("protocol error: ", e.to_string().as_str());
                            chunk.push(text_reply(FrameType::Error, 0, text.as_str()));
                            proof {
                                assert(from_frame_result(f, rc));
                                assert(frame_decode_result(c.buf, max, after, dr));
                                assert(loop_step(c, loop_cfg(*self, *broker, store@, read_buf@), chunk@, StepEnd::Continue, conn_id, *config));
                            }
                            (chunk, StepEnd::Continue)
                        },
                    }
                },
                Ok(None) => {
                    if self.local_published > 0 {
                        self.flush_published(broker);
                    }
                    proof {
                        assert(frame_decode_result(c.buf, max, after, dr));
                        assert(loop_step(c, loop_cfg(*self, *broker, store@, read_buf@), chunk@, StepEnd::Incomplete, conn_id, *config));
                    }
                    (chunk, StepEnd::Incomplete)
                },
                Err(e) => {
                    if self.local_published > 0 {
                        self.flush_published(broker);
                    }
                    let ghost m = *broker;
                    Self::count_protocol_error(broker);
                    read_buf.clear();
                    let text = concat_text("decode error: ", e.to_string().as_str());
                    chunk.push(text_reply(FrameType::Error, 0, text.as_str()));
                    proof {
                        assert(flushed(c.session, c.broker, m));
                        assert(frame_decode_result(c.buf, max, after, dr));
                        assert(loop_step(c, loop_cfg(*self, *broker, store@, read_buf@), chunk@, StepEnd::Continue, conn_id, *config));
                    }
                    (chunk, StepEnd::Continue)
                },
            }
        }
    }

    /// Handles every complete frame in the buffer, in order: runs of PUB
    /// frames of a connected session go the fast way (see
    /// `dispatch_publish_batch_from_read_buf`), other frames are decoded and
    /// their commands handled (see `handle_command`). A frame that fails to
    /// decode is counted as a protocol error, the buffer is cleared, and an
    /// ERROR frame says why. Publishes counted on the fast path are added to
    /// the broker's counter once they reach 4096, and when the buffer runs
    /// out. Gives the frames to send, in order, and true where a failed
    /// CONNECT stopped the handling; otherwise the buffer is left holding at
    /// most the start of a frame. The passes made are those of `loop_run`.
    pub fn process_frames<D: DeliveryHandle>(
        &mut self,
        read_buf: &mut Vec<u8>,
        broker: &mut BrokerCore<D>,
        store: &mut ConsumerManager,
        conn_id: ConnectionId,
        config: &ServerConfig,
        delivery: &Arc<D>,
    ) -> (r: (Vec<Frame>, bool))
        requires
            old(broker).wf(),
            old(store).wf(),
            old(self).local_published < LOCAL_PUBLISHED_FLUSH_THRESHOLD,
            old(broker).next_id() + old(read_buf)@.len() < u64::MAX,
            old(broker).router_view().trie_count() + old(read_buf)@.len() < usize::MAX,
            forall|j: int| 0 <= j < old(store)@.consumers.len() ==>
                (#[trigger] old(store)@.consumers[j]).1.state.acked_count + old(read_buf)@.len() < u64::MAX,
        ensures
            final(broker).wf(),
            final(store).wf(),
            final(self).local_published < LOCAL_PUBLISHED_FLUSH_THRESHOLD,
            final(read_buf)@.len() <= old(read_buf)@.len(),
            !r.1 ==> frame_incomplete(final(read_buf)@, config.max_frame_size),
            exists|trace: Seq<LoopCfg<D>>, outs: Seq<Seq<Frame>>| {
                &&& #[trigger] loop_run(trace, outs, conn_id, *config, loop_end(r.1))
                &&& trace[0] == loop_cfg(*old(self), *old(broker), old(store)@, old(read_buf)@)
                &&& trace.last() == loop_cfg(*final(self), *final(broker), final(store)@, final(read_buf)@)
                &&& r.0@ == outs.flatten()
            },
    {
        let ghost n0 = broker.next_id() + read_buf@.len();
        let ghost t0 = broker.router_view().trie_count() + read_buf@.len();
        let ghost len0 = read_buf@.len();
        let ghost c0 = store@.consumers;
        let ghost cfg0 = loop_cfg(*self, *broker, store@, read_buf@);
        let ghost mut trace: Seq<LoopCfg<D>> = seq![cfg0];
        let ghost mut outs: Seq<Seq<Frame>> = Seq::empty();
        let ghost mut last_end = StepEnd::Continue;
        let mut out: Vec<Frame> = Vec::new();
        let mut finished = false;
        let mut auth_failed = false;
        let max = config.max_frame_size;
        while !finished
            invariant
                broker.wf(),
                store.wf(),
                max == config.max_frame_size,
                self.local_published < LOCAL_PUBLISHED_FLUSH_THRESHOLD,
                read_buf@.len() <= len0,
                broker.next_id() + read_buf@.len() <= n0,
                n0 < u64::MAX,
                broker.router_view().trie_count() + read_buf@.len() <= t0,
                t0 < usize::MAX,
                store@.consumers.len() == c0.len(),
                forall|j: int| 0 <= j < c0.len() ==> c0[j].1.state.acked_count + len0 < u64::MAX,
                forall|j: int| 0 <= j < store@.consumers.len() ==>
                    (#[trigger] store@.consumers[j]).1.state.acked_count + read_buf@.len() <= c0[j].1.state.acked_count + len0,
                finished ==> (auth_failed || frame_incomplete(read_buf@, max)),
                trace.len() == outs.len() + 1,
                trace[0] == cfg0,
                trace.last() == loop_cfg(*self, *broker, store@, read_buf@),
                out@ == outs.flatten(),
                forall|i: int| 0 <= i < outs.len() - 1 ==>
                    loop_step(trace[i], trace[i + 1], #[trigger] outs[i], StepEnd::Continue, conn_id, *config),
                outs.len() > 0 ==> loop_step(trace[outs.len() - 1], trace[outs.len() as int], outs[outs.len() - 1], last_end, conn_id, *config),
                !finished ==> outs.len() == 0 || last_end == StepEnd::Continue,
                !finished ==> !auth_failed,
                finished ==> outs.len() > 0 && last_end == loop_end(auth_failed),
            decreases read_buf@.len(), (if finished { 0int } else { 1int }),
        {
            let ghost outs0 = outs;
            let ghost trace0 = trace;
            let ghost end0 = last_end;
            let (frames, end) = self.frame_step(read_buf, broker, store, conn_id, config, delivery);
            let ghost chunk = frames@;
            let mut frames = frames;
            out.append(&mut frames);
            proof {
                outs.lemma_flatten_push(chunk);
                trace = trace.push(loop_cfg(*self, *broker, store@, read_buf@));
                outs = outs.push(chunk);
                last_end = end;
                assert forall|i: int| 0 <= i < outs.len() - 1 implies
                    loop_step(trace[i], trace[i + 1], #[trigger] outs[i], StepEnd::Continue, conn_id, *config) by {
                    if i < outs0.len() - 1 {
                        assert(outs0[i] == outs[i]);
                        assert(trace0[i] == trace[i]);
                        assert(trace0[i + 1] == trace[i + 1]);
                    } else {
                        assert(i == outs0.len() - 1);
                        assert(end0 == StepEnd::Continue);
                        assert(outs0[i] == outs[i]);
                        assert(trace0[i] == trace[i]);
                        assert(trace0[i + 1] == trace[i + 1]);
                    }
                }
            }
            match end {
                StepEnd::Continue => {},
                StepEnd::Incomplete => {
                    finished = true;
                },
                StepEnd::AuthFailed => {
                    finished = true;
                    auth_failed = true;
                },
            }
        }
        proof {
            assert(loop_run(trace, outs, conn_id, *config, loop_end(auth_failed)));
        }
        (out, auth_failed)
    }
}

/// What a heartbeat tick calls for.
#[derive(Clone, Copy, Debug, PartialEq, Eq, Structural)]
pub enum HeartbeatAction {
    /// The session is not connected: nothing.
    Skip,
    /// Silent for longer than the timeout: disconnect.
    Disconnect,
    /// Silent for longer than the interval: send PING.
    SendPing,
    /// Nothing to do yet.
    Wait,
}

/// The heartbeat's decision for a session in `state` that has been silent
/// for `elapsed_nanos` nanoseconds, with the interval and timeout in
/// seconds.
pub fn heartbeat_action(state: SessionState, elapsed_nanos: u128, interval_secs: u64, timeout_secs: u64) -> (r: HeartbeatAction)
    ensures
        r == (if state != SessionState::Connected {
            HeartbeatAction::Skip
        } else if elapsed_nanos > timeout_secs * 1_000_000_000 {
            HeartbeatAction::Disconnect
        } else if elapsed_nanos > interval_secs * 1_000_000_000 {
            HeartbeatAction::SendPing
        } else {
            HeartbeatAction::Wait
        }),
{
    if state != SessionState::Connected {
        return HeartbeatAction::Skip;
    }
    let timeout = timeout_secs as u128 * 1_000_000_000u128;
    let interval = interval_secs as u128 * 1_000_000_000u128;
    if elapsed_nanos > timeout {
        HeartbeatAction::Disconnect
    } else if elapsed_nanos > interval {
        HeartbeatAction::SendPing
    } else {
        HeartbeatAction::Wait
    }
}

impl Session {
    /// The server is shutting down: a connected session starts draining
    /// (true: wait for the drain timeout or one more read before closing);
    /// any other closes at once (false).
    pub fn begin_shutdown(&mut self) -> (r: bool)
        ensures
            r == (old(self).state == SessionState::Connected),
            r ==> final(self).state == SessionState::Draining,
            !r ==> final(self).state == old(self).state,
            final(self).auth_ctx == old(self).auth_ctx,
            final(self).local_published == old(self).local_published,
            final(self).sub_consumers@ == old(self).sub_consumers@,
    {
        if self.state == SessionState::Connected {
            self.state = SessionState::Draining;
            true
        } else {
            false
        }
    }

    /// At the end of a connection: adds the locally counted publishes to the
    /// broker's counter, then removes the connection's subscriptions.
    pub fn finish<D: DeliveryHandle>(&mut self, broker: &mut BrokerCore<D>, conn_id: ConnectionId)
        requires
            old(broker).wf(),
        ensures
            final(broker).wf(),
            final(self).local_published == 0,
            final(broker).subs() == old(broker).subs().filter(crate::registry::off_conn(conn_id)),
            final(broker).next_id() == old(broker).next_id(),
            final(broker).groups() == crate::broker::cleanup(
                old(broker).groups(),
                old(broker).subs().filter(crate::registry::on_conn(conn_id)),
            ),
            final(broker).sent_log() == old(broker).sent_log(),
            final(broker).outcome_log() == old(broker).outcome_log(),
            snapshot_of(final(broker).counters()) == (MetricsSnapshot {
                messages_published: wrap_add(old(broker).counters().messages_published, old(self).local_published),
                active_subscriptions: crate::metrics::wrap_sub_n(
                    old(broker).counters().active_subscriptions,
                    old(broker).subs().filter(crate::registry::on_conn(conn_id)).len(),
                ),
                active_connections: crate::metrics::wrap_dec(old(broker).counters().active_connections),
                ..snapshot_of(old(broker).counters())
            }),
    {
        if self.local_published > 0 {
            self.flush_published(broker);
        }
        broker.remove_connection(conn_id);
    }
}

/// Admission of connections: ids handed out in turn from 1, and the number
/// open, under a limit.
pub struct ConnectionTracker {
    next_id: u64,
    active: u64,
    max_connections: usize,
}

/// What the tracker holds.
pub struct TrackerView {
    pub next_id: u64,
    pub active: u64,
    pub max_connections: usize,
}

impl View for ConnectionTracker {
    type V = TrackerView;

    closed spec fn view(&self) -> TrackerView {
        TrackerView { next_id: self.next_id, active: self.active, max_connections: self.max_connections }
    }
}

/// What the drain wait at shutdown does next.
#[derive(Clone, Copy, Debug, PartialEq, Eq, Structural)]
pub enum DrainStep {
    /// No connection is left.
    Drained,
    /// The drain timeout has passed.
    TimedOut,
    /// Check again after a pause.
    Wait,
}

impl ConnectionTracker {
    /// A tracker for at most `max_connections` open connections; the first id
    /// is 1.
    pub fn new(max_connections: usize) -> (r: ConnectionTracker)
        ensures
            r@ == (TrackerView { next_id: 1, active: 0, max_connections }),
    {
        ConnectionTracker { next_id: 1, active: 0, max_connections }
    }

    /// Admits a connection, giving it the next id, unless as many are open
    /// as the limit allows (the counters wrap as atomic additions do).
    pub fn try_accept(&mut self) -> (r: Option<ConnectionId>)
        ensures
            old(self)@.active >= old(self)@.max_connections ==> r is None && final(self)@ == old(self)@,
            old(self)@.active < old(self)@.max_connections ==> {
                &&& r == Some(ConnectionId(old(self)@.next_id))
                &&& final(self)@ == (TrackerView {
                    next_id: wrap_add(old(self)@.next_id, 1),
                    active: wrap_add(old(self)@.active, 1),
                    max_connections: old(self)@.max_connections,
                })
            },
    {
        if self.active >= self.max_connections as u64 {
            return None;
        }
        let id = self.next_id;
        self.next_id = self.next_id.wrapping_add(1);
        self.active = self.active.wrapping_add(1);
        Some(ConnectionId::new(id))
    }

    /// A connection closed, or its TLS handshake failed.
    pub fn release(&mut self)
        ensures
            final(self)@ == (TrackerView { active: crate::metrics::wrap_dec(old(self)@.active), ..old(self)@ }),
    {
        self.active = self.active.wrapping_sub(1);
    }

    /// How many connections are open.
    pub fn active(&self) -> (r: u64)
        ensures
            r == self@.active,
    {
        self.active
    }

    /// The drain wait's next step after `elapsed_nanos` of waiting with
    /// the drain timeout in seconds.
    pub fn drain_step(&self, elapsed_nanos: u128, drain_timeout_secs: u64) -> (r: DrainStep)
        ensures
            r == (if self@.active == 0 {
                DrainStep::Drained
            } else if elapsed_nanos >= drain_timeout_secs * 1_000_000_000 {
                DrainStep::TimedOut
            } else {
                DrainStep::Wait
            }),
    {
        if self.active == 0 {
            DrainStep::Drained
        } else if elapsed_nanos >= drain_timeout_secs as u128 * 1_000_000_000u128 {
            DrainStep::TimedOut
        } else {
            DrainStep::Wait
        }
    }
}

} // verus!
