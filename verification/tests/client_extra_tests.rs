use zetmq::client::{
    build_pub_frame, build_sub_frame, build_unsub_frame, client_frame_action, decode_msg, env_string, flush_target,
    inbox_prefix, msg_reply_in_bounds, reply_subject, ClientAction, ClientOptions, ReconnectAction, ReconnectPlan, tls_verification, TlsVerification,
};
use zetmq::command::BrokerCommand;
use zetmq::frame::{Frame, FrameType};

fn msg_frame(subject: &str, reply: Option<&str>, sub_id: u64, data: &[u8]) -> Frame {
    let mut p = Vec::new();
    p.extend_from_slice(&(subject.len() as u16).to_be_bytes());
    p.extend_from_slice(subject.as_bytes());
    match reply {
        Some(r) => {
            p.extend_from_slice(&(r.len() as u16).to_be_bytes());
            p.extend_from_slice(r.as_bytes());
        }
        None => p.extend_from_slice(&0u16.to_be_bytes()),
    }
    p.extend_from_slice(&sub_id.to_be_bytes());
    p.extend_from_slice(data);
    Frame::new(FrameType::Msg, sub_id).with_payload(p)
}

#[test]
fn msg_frames_become_deliveries() {
    let f = msg_frame("a.b", Some("r"), 4, b"xy");
    assert!(msg_reply_in_bounds(&f.payload));
    match client_frame_action(&f) {
        ClientAction::Deliver(id, m) => {
            assert_eq!(id, 4);
            assert_eq!(m.subject, b"a.b".to_vec());
            assert_eq!(m.reply_to, Some(b"r".to_vec()));
            assert_eq!(m.payload, b"xy".to_vec());
        }
        _ => panic!("expected delivery"),
    }
    let short = Frame::new(FrameType::Msg, 0).with_payload(vec![0]);
    assert!(matches!(client_frame_action(&short), ClientAction::BadMessage(_)));
    let (id, m) = decode_msg(&msg_frame("s", None, 9, b"")).unwrap();
    assert_eq!(id, 9);
    assert!(m.payload.is_empty() && m.reply_to.is_none());
}

#[test]
fn other_frames_become_actions() {
    let suback = Frame::new(FrameType::Suback, 3).with_payload(7u64.to_be_bytes().to_vec());
    assert!(matches!(client_frame_action(&suback), ClientAction::SubAck { correlation_id: 3, server_sub_id: 7 }));
    assert!(matches!(client_frame_action(&Frame::new(FrameType::Suback, 3)), ClientAction::Ignore));
    assert!(matches!(client_frame_action(&Frame::new(FrameType::Ping, 0)), ClientAction::SendPong));
    assert!(matches!(client_frame_action(&Frame::new(FrameType::Pong, 5)), ClientAction::ResolveFlush(5)));
    match client_frame_action(&Frame::new(FrameType::Error, 0).with_payload(b"oops".to_vec())) {
        ClientAction::ServerError(m) => assert_eq!(m, "oops"),
        _ => panic!("expected error"),
    }
    assert!(matches!(client_frame_action(&Frame::new(FrameType::Connack, 0)), ClientAction::Ignore));
    let mut unknown = Frame::new(FrameType::Ping, 0);
    unknown.header.frame_type = 0x99;
    assert!(matches!(client_frame_action(&unknown), ClientAction::Ignore));
}

#[test]
fn flush_targets() {
    assert_eq!(flush_target(0, &[5, 2, 9]), Some(2));
    assert_eq!(flush_target(0, &[]), None);
    assert_eq!(flush_target(9, &[5, 2, 9]), Some(9));
    assert_eq!(flush_target(4, &[5, 2, 9]), None);
}

#[test]
fn inbox_and_reply_subjects() {
    assert_eq!(inbox_prefix(0xab, 3), "_INBOX.00000000000000ab.3");
    assert_eq!(inbox_prefix(u64::MAX, 0), "_INBOX.ffffffffffffffff.0");
    assert_eq!(reply_subject("_INBOX.x", 12), "_INBOX.x.12");
    assert_eq!(env_string(Some("  ")), None);
    assert_eq!(env_string(Some(" v ")).as_deref(), Some("v"));
}

#[test]
fn client_frames_decode_on_the_server() {
    let f = build_pub_frame("a.b", Some("r"), b"data", None);
    match BrokerCommand::from_frame(f).unwrap() {
        BrokerCommand::Publish(p) => {
            assert_eq!(p.subject, b"a.b".to_vec());
            assert_eq!(p.reply_to, Some(b"r".to_vec()));
            assert_eq!(p.payload, b"data".to_vec());
        }
        _ => panic!("expected publish"),
    }
    match BrokerCommand::from_frame(build_sub_frame("x.*", Some("g"), 4)).unwrap() {
        BrokerCommand::Subscribe(s) => {
            assert_eq!(s.subject_pattern, "x.*");
            assert_eq!(s.queue_group.as_deref(), Some("g"));
        }
        _ => panic!("expected subscribe"),
    }
    match BrokerCommand::from_frame(build_unsub_frame(77)).unwrap() {
        BrokerCommand::Unsubscribe(u) => assert_eq!(u.subscription_id, 77),
        _ => panic!("expected unsubscribe"),
    }
}

#[test]
fn options_builders() {
    let o = ClientOptions::new("h:1".into()).with_token("t".into()).with_tls(true);
    assert_eq!(o.addr, "h:1");
    assert!(o.tls && o.tls_skip_verify);
    let d = ClientOptions::default();
    assert_eq!(d.addr, "127.0.0.1:4222");
    assert_eq!(d.max_frame_size, 2 * 1024 * 1024);
}

#[test]
fn default_options_time_out_after_five_seconds() {
    let opts = zetmq::client::ClientOptions::new("127.0.0.1:1".to_string());
    assert_eq!(opts.connect_timeout, std::time::Duration::from_secs(5));
    assert_eq!(opts.request_timeout, std::time::Duration::from_secs(5));
}

#[test]
fn reconnect_is_off_by_default() {
    let o = ClientOptions::new("h:1".into());
    assert!(!o.reconnect_enabled);
    let o = o.with_reconnect(3, 100, true);
    assert!(o.reconnect_enabled);
    assert_eq!(o.max_reconnect_attempts, 3);
    assert_eq!(o.addr, "h:1");
}

#[test]
fn reconnect_waits_double_after_each_failure() {
    let o = ClientOptions::new("h:1".into()).with_reconnect(3, 100, true);
    let mut p = ReconnectPlan::new(&o, false);
    assert_eq!(p.next(), ReconnectAction::Attempt(0));
    assert_eq!(p.next(), ReconnectAction::Attempt(200));
    assert_eq!(p.next(), ReconnectAction::Attempt(400));
    assert_eq!(p.next(), ReconnectAction::GiveUp);
    assert_eq!(p.next(), ReconnectAction::GiveUp);
    let mut q = ReconnectPlan::new(&o, true);
    assert_eq!(q.next(), ReconnectAction::Attempt(100));
    assert_eq!(q.next(), ReconnectAction::Attempt(200));
}

#[test]
fn reconnect_without_backoff_keeps_the_wait() {
    let o = ClientOptions::new("h:1".into()).with_reconnect(2, 50, false);
    let mut p = ReconnectPlan::new(&o, true);
    assert_eq!(p.next(), ReconnectAction::Attempt(50));
    assert_eq!(p.next(), ReconnectAction::Attempt(50));
    assert_eq!(p.next(), ReconnectAction::GiveUp);
    let none = ClientOptions::new("h:1".into()).with_reconnect(0, 50, false);
    assert_eq!(ReconnectPlan::new(&none, true).next(), ReconnectAction::GiveUp);
}

#[test]
fn reconnect_wait_saturates() {
    let o = ClientOptions::new("h:1".into()).with_reconnect(3, u64::MAX / 2 + 1, true);
    let mut p = ReconnectPlan::new(&o, true);
    assert_eq!(p.next(), ReconnectAction::Attempt(u64::MAX / 2 + 1));
    assert_eq!(p.next(), ReconnectAction::Attempt(u64::MAX));
    assert_eq!(p.next(), ReconnectAction::Attempt(u64::MAX));
}

#[test]
fn tls_skip_needs_the_environment() {
    assert_eq!(tls_verification(false, None), TlsVerification::Verify);
    assert_eq!(tls_verification(false, Some("1")), TlsVerification::Verify);
    assert_eq!(tls_verification(true, None), TlsVerification::Refused);
    assert_eq!(tls_verification(true, Some("no")), TlsVerification::Refused);
    assert_eq!(tls_verification(true, Some(" Yes ")), TlsVerification::Skip);
}
