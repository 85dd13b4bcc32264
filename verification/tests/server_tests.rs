use std::sync::{Arc, Mutex};

use zetmq::admin::{admin_response, escape_json_string, first_line, json_response, metrics_json, stream_json, streams_json};
use zetmq::auth::{validate_auth, AuthContext};
use zetmq::broker::BrokerCore;
use zetmq::command::{AuthInfo, BrokerCommand, PublishCommand, SubscribeCommand, UnsubscribeCommand};
use zetmq::config::{PermissionsConfig, ServerConfig, UserConfig};
use zetmq::consumer::ConsumerManager;
use zetmq::delivery::{DeliveryHandle, DeliveryMessage, DeliveryStatus};
use zetmq::dispatcher::{dispatch, dispatch_publish_batch, SubConsumerMap};
use zetmq::frame::{Frame, FrameType};
use zetmq::id::ConnectionId;
use zetmq::memory::MemoryStore;
use zetmq::metrics::MetricsSnapshot;
use zetmq::session::{
    dispatch_publish_batch_from_read_buf, drain_publish_batch_without_subscribers, heartbeat_action, ConnectionTracker,
    DrainStep, HeartbeatAction, Session, SessionState,
};
use zetmq::stream::{StreamConfig, StreamInfo, StreamState};
use zetmq::stream_cmd::{AckCommand, CreateStreamCommand, StreamInfoResponse};
use zetmq::subject_pattern::SubjectPattern;

struct Recorder {
    got: Mutex<Vec<DeliveryMessage>>,
}

impl DeliveryHandle for Recorder {
    fn deliver(&self, msg: DeliveryMessage) -> DeliveryStatus {
        self.got.lock().unwrap().push(msg);
        DeliveryStatus::Delivered
    }
}

fn recorder() -> Arc<Recorder> {
    Arc::new(Recorder { got: Mutex::new(Vec::new()) })
}

fn pub_frame_bytes(subject: &str, payload: &[u8], corr: u64) -> Vec<u8> {
    let mut data = Vec::new();
    data.extend_from_slice(&(subject.len() as u16).to_be_bytes());
    data.extend_from_slice(subject.as_bytes());
    data.extend_from_slice(&0u16.to_be_bytes());
    data.extend_from_slice(payload);
    Frame::new(FrameType::Pub, corr).with_payload(data).encode()
}

fn sub_frame_bytes(pattern: &str, corr: u64) -> Vec<u8> {
    let mut data = vec![pattern.len() as u8];
    data.extend_from_slice(pattern.as_bytes());
    Frame::new(FrameType::Sub, corr).with_payload(data).encode()
}

fn frame_types(frames: &[Frame]) -> Vec<u8> {
    frames.iter().map(|f| f.header.frame_type).collect()
}

#[test]
fn session_connects_subscribes_and_publishes() {
    let mut broker: BrokerCore<Recorder> = BrokerCore::new();
    let mut store = ConsumerManager::new(MemoryStore::new());
    let config = ServerConfig::default();
    let delivery = recorder();
    let mut session = Session::new();
    let mut buf = Frame::new(FrameType::Connect, 0).encode();
    buf.extend_from_slice(&sub_frame_bytes("orders.*", 7));
    buf.extend_from_slice(&pub_frame_bytes("orders.created", b"hi", 8));
    buf.extend_from_slice(&[0x5A, 0x4D]);
    let (frames, auth_failed) =
        session.process_frames(&mut buf, &mut broker, &mut store, ConnectionId::new(3), &config, &delivery);
    assert!(!auth_failed);
    assert_eq!(session.state, SessionState::Connected);
    assert_eq!(frame_types(&frames), vec![0x02, 0x31]);
    assert_eq!(frames[1].header.correlation_id, 7);
    assert_eq!(frames[1].payload, 1u64.to_be_bytes().to_vec());
    assert_eq!(delivery.got.lock().unwrap().len(), 1);
    assert_eq!(buf, vec![0x5A, 0x4D]);
    assert_eq!(broker.metrics().snapshot().active_connections, 1);
    assert_eq!(session.sub_consumers.get(1), Some(("orders.*".to_string(), "conn-3-sub-1".to_string())));
}

#[test]
fn commands_before_connect_are_ignored() {
    let mut broker: BrokerCore<Recorder> = BrokerCore::new();
    let mut store = ConsumerManager::new(MemoryStore::new());
    let config = ServerConfig::default();
    let delivery = recorder();
    let mut session = Session::new();
    let mut buf = sub_frame_bytes("a", 1);
    buf.extend_from_slice(&Frame::new(FrameType::Ping, 0).encode());
    let (frames, _) = session.process_frames(&mut buf, &mut broker, &mut store, ConnectionId::new(1), &config, &delivery);
    assert_eq!(frame_types(&frames), vec![0x11]);
    assert_eq!(broker.metrics().snapshot().active_subscriptions, 0);
    assert!(buf.is_empty());
}

#[test]
fn bad_token_is_refused_and_stops() {
    let mut broker: BrokerCore<Recorder> = BrokerCore::new();
    let mut store = ConsumerManager::new(MemoryStore::new());
    let mut config = ServerConfig::default();
    config.auth.auth_type = "token".into();
    config.auth.token = Some("good".into());
    let delivery = recorder();
    let mut session = Session::new();
    let mut payload = vec![1u8];
    payload.extend_from_slice(&3u16.to_be_bytes());
    payload.extend_from_slice(b"bad");
    let mut buf = Frame::new(FrameType::Connect, 5).with_payload(payload).encode();
    buf.extend_from_slice(&Frame::new(FrameType::Ping, 0).encode());
    let (frames, auth_failed) =
        session.process_frames(&mut buf, &mut broker, &mut store, ConnectionId::new(1), &config, &delivery);
    assert!(auth_failed);
    assert_eq!(session.state, SessionState::New);
    assert_eq!(frames.len(), 1);
    assert_eq!(frames[0].header.frame_type, 0xE0);
    assert_eq!(frames[0].header.correlation_id, 5);
    assert_eq!(frames[0].payload, b"authentication failed: invalid token".to_vec());
    assert_eq!(buf.len(), 22);
}

#[test]
fn decode_error_clears_buffer_and_counts() {
    let mut broker: BrokerCore<Recorder> = BrokerCore::new();
    let mut store = ConsumerManager::new(MemoryStore::new());
    let config = ServerConfig::default();
    let delivery = recorder();
    let mut session = Session::new();
    let mut buf = vec![0u8; 30];
    let (frames, _) = session.process_frames(&mut buf, &mut broker, &mut store, ConnectionId::new(1), &config, &delivery);
    assert!(buf.is_empty());
    assert_eq!(frames.len(), 1);
    assert_eq!(frames[0].header.frame_type, 0xE0);
    assert!(String::from_utf8(frames[0].payload.clone()).unwrap().starts_with("decode error: "));
    assert_eq!(broker.metrics().snapshot().protocol_errors, 1);
}

fn restricted_session(publish: Vec<String>) -> Session {
    let mut session = Session::new();
    session.state = SessionState::Connected;
    session.auth_ctx =
        AuthContext::from_permissions("u".into(), &PermissionsConfig { publish, subscribe: vec!["a.>".into()] }).unwrap();
    session
}

#[test]
fn publish_permission_is_enforced() {
    let mut broker: BrokerCore<Recorder> = BrokerCore::new();
    let mut store = ConsumerManager::new(MemoryStore::new());
    let config = ServerConfig::default();
    let delivery = recorder();
    let mut session = restricted_session(vec!["orders.>".into()]);
    let mut buf = sub_frame_bytes("b.x", 4);
    let (frames, _) = session.process_frames(&mut buf, &mut broker, &mut store, ConnectionId::new(1), &config, &delivery);
    assert_eq!(frames.len(), 1);
    assert_eq!(frames[0].payload, b"permission denied for subscribe".to_vec());
    let mut buf = pub_frame_bytes("events.x", b"p", 9);
    let (frames, _) = session.process_frames(&mut buf, &mut broker, &mut store, ConnectionId::new(1), &config, &delivery);
    assert_eq!(frames.len(), 1);
    assert_eq!(frames[0].header.correlation_id, 9);
    assert_eq!(frames[0].payload, b"permission denied for publish".to_vec());
    assert_eq!(session.local_published, 0);
}

#[test]
fn drain_counts_publishes_without_subscribers() {
    let mut broker: BrokerCore<Recorder> = BrokerCore::new();
    let mut buf = pub_frame_bytes("a.b", b"1", 1);
    buf.extend_from_slice(&pub_frame_bytes("a.c", b"2", 2));
    let mut denied = Vec::new();
    let r = drain_publish_batch_without_subscribers(&mut buf, &mut broker, &AuthContext::unrestricted(), &mut denied, 1 << 20);
    assert_eq!(r.unwrap(), (true, 2));
    assert!(buf.is_empty());
    assert!(denied.is_empty());
    let ctx = AuthContext::from_permissions("u".into(), &PermissionsConfig { publish: vec!["a.b".into()], subscribe: vec![] })
        .unwrap();
    let mut buf = pub_frame_bytes("a.b", b"1", 1);
    buf.extend_from_slice(&pub_frame_bytes("a.c", b"2", 2));
    let r = drain_publish_batch_without_subscribers(&mut buf, &mut broker, &ctx, &mut denied, 1 << 20);
    assert_eq!(r.unwrap(), (true, 1));
    assert_eq!(denied, vec![2]);
}

#[test]
fn fast_path_publishes_to_subscribers() {
    let mut broker: BrokerCore<Recorder> = BrokerCore::new();
    let delivery = recorder();
    broker.subscribe(ConnectionId::new(1), SubjectPattern::parse("a.*").unwrap(), None, delivery.clone());
    let mut buf = pub_frame_bytes("a.b", b"1", 1);
    buf.extend_from_slice(&pub_frame_bytes("a.c", b"2", 2));
    let mut denied = Vec::new();
    let r = dispatch_publish_batch_from_read_buf(&mut buf, &mut broker, ConnectionId::new(1), &AuthContext::unrestricted(), &mut denied, 1 << 20);
    assert_eq!(r.unwrap(), (true, 0));
    assert_eq!(delivery.got.lock().unwrap().len(), 2);
    assert_eq!(broker.metrics().snapshot().messages_published, 2);
}

#[test]
fn fast_path_rejects_oversized_frame() {
    let mut broker: BrokerCore<Recorder> = BrokerCore::new();
    let mut buf = pub_frame_bytes("a.b", &[0u8; 64], 1);
    let mut denied = Vec::new();
    let r = drain_publish_batch_without_subscribers(&mut buf, &mut broker, &AuthContext::unrestricted(), &mut denied, 30);
    assert!(r.is_err());
    assert_eq!(buf.len(), 22 + 2 + 3 + 2 + 64);
}

#[test]
fn dispatch_subscribe_unsubscribe_and_ack() {
    let mut broker: BrokerCore<Recorder> = BrokerCore::new();
    let mut store = ConsumerManager::new(MemoryStore::new());
    let delivery = recorder();
    let mut map = SubConsumerMap::new();
    let conn = ConnectionId::new(2);
    let sub = BrokerCommand::Subscribe(SubscribeCommand { subject_pattern: "x.y".into(), queue_group: Some("g".into()) });
    let frames = dispatch(&mut broker, &mut store, conn, sub, 11, &delivery, &mut map);
    assert_eq!(frames.len(), 1);
    assert_eq!(frames[0].header.frame_type, 0x31);
    assert_eq!(frames[0].payload, 1u64.to_be_bytes().to_vec());
    assert_eq!(map.get(1), Some(("x.y".to_string(), "conn-2-sub-1".to_string())));
    let bad = BrokerCommand::Subscribe(SubscribeCommand { subject_pattern: "x..y".into(), queue_group: None });
    assert!(dispatch(&mut broker, &mut store, conn, bad, 12, &delivery, &mut map).is_empty());
    let publish = BrokerCommand::Publish(PublishCommand { subject: b"x.y".to_vec(), payload: b"p".to_vec(), reply_to: None, headers: None });
    assert!(dispatch(&mut broker, &mut store, conn, publish, 0, &delivery, &mut map).is_empty());
    assert_eq!(delivery.got.lock().unwrap().len(), 1);
    let ack = BrokerCommand::Ack(AckCommand { stream: "s".into(), sequence: 1 });
    assert!(dispatch(&mut broker, &mut store, conn, ack, 1, &delivery, &mut map).is_empty());
    let unsub = BrokerCommand::Unsubscribe(UnsubscribeCommand { subscription_id: 1 });
    let frames = dispatch(&mut broker, &mut store, conn, unsub, 13, &delivery, &mut map);
    assert_eq!(frames[0].header.frame_type, 0x33);
    assert_eq!(map.get(1), None);
    assert_eq!(broker.metrics().snapshot().active_subscriptions, 0);
}

#[test]
fn dispatch_create_stream_replies() {
    let mut broker: BrokerCore<Recorder> = BrokerCore::new();
    let mut store = ConsumerManager::new(MemoryStore::new());
    let delivery = recorder();
    let mut map = SubConsumerMap::new();
    let create = || BrokerCommand::CreateStream(CreateStreamCommand { name: "orders".into(), max_msgs: 10, max_bytes: 0, max_age_secs: 5 });
    let frames = dispatch(&mut broker, &mut store, ConnectionId::new(1), create(), 0, &delivery, &mut map);
    assert_eq!(frames[0].header.frame_type, 0x52);
    let info = StreamInfoResponse::decode(&frames[0].payload).unwrap();
    assert_eq!((info.name.as_str(), info.first_seq, info.last_seq, info.max_msgs, info.max_age_secs), ("orders", 1, 0, 10, 5));
    let frames = dispatch(&mut broker, &mut store, ConnectionId::new(1), create(), 0, &delivery, &mut map);
    assert_eq!(frames[0].header.frame_type, 0xE0);
    assert_eq!(frames[0].payload, b"create stream error: stream already exists: orders".to_vec());
}

#[test]
fn dispatch_publish_batch_skips_bad_subjects() {
    let mut broker: BrokerCore<Recorder> = BrokerCore::new();
    let delivery = recorder();
    broker.subscribe(ConnectionId::new(1), SubjectPattern::parse(">").unwrap(), None, delivery.clone());
    let good = PublishCommand { subject: b"a".to_vec(), payload: vec![], reply_to: Some(b"r".to_vec()), headers: None };
    let bad = PublishCommand { subject: vec![0xff], payload: vec![], reply_to: None, headers: None };
    dispatch_publish_batch(&mut broker, ConnectionId::new(1), vec![good, bad]);
    assert_eq!(delivery.got.lock().unwrap().len(), 1);
    assert_eq!(broker.metrics().snapshot().messages_published, 1);
}

#[test]
fn heartbeat_decisions() {
    assert_eq!(heartbeat_action(SessionState::New, 10_000_000_000_000, 30, 60), HeartbeatAction::Skip);
    assert_eq!(heartbeat_action(SessionState::Connected, 61_000_000_000, 30, 60), HeartbeatAction::Disconnect);
    assert_eq!(heartbeat_action(SessionState::Connected, 31_000_000_000, 30, 60), HeartbeatAction::SendPing);
    assert_eq!(heartbeat_action(SessionState::Connected, 30_000_000_000, 30, 60), HeartbeatAction::Wait);
}

#[test]
fn shutdown_drains_connected_sessions() {
    let mut s = Session::new();
    assert!(!s.begin_shutdown());
    s.state = SessionState::Connected;
    assert!(s.begin_shutdown());
    assert_eq!(s.state, SessionState::Draining);
}

#[test]
fn connection_tracker_limits() {
    let mut t = ConnectionTracker::new(1);
    assert_eq!(t.try_accept(), Some(ConnectionId::new(1)));
    assert_eq!(t.try_accept(), None);
    assert_eq!(t.drain_step(0, 5), DrainStep::Wait);
    assert_eq!(t.drain_step(5_000_000_000, 5), DrainStep::TimedOut);
    t.release();
    assert_eq!(t.try_accept(), Some(ConnectionId::new(2)));
    t.release();
    assert_eq!(t.drain_step(0, 5), DrainStep::Drained);
}

#[test]
fn validate_auth_userpass() {
    let mut config = ServerConfig::default();
    config.auth.auth_type = "userpass".into();
    config.auth.users = vec![UserConfig {
        username: "admin".into(),
        password: "secret".into(),
        permissions: PermissionsConfig { publish: vec![">".into()], subscribe: vec![] },
    }];
    let ok = validate_auth(&AuthInfo::UserPass { username: "admin".into(), password: "secret".into() }, &config).unwrap();
    assert_eq!(ok.username.as_deref(), Some("admin"));
    assert!(validate_auth(&AuthInfo::UserPass { username: "admin".into(), password: "x".into() }, &config).is_err());
    assert!(validate_auth(&AuthInfo::Anonymous, &config).is_err());
}

fn snapshot() -> MetricsSnapshot {
    MetricsSnapshot {
        active_connections: 1,
        total_connections: 2,
        active_subscriptions: 3,
        messages_published: 4,
        messages_delivered: 5,
        messages_dropped: 6,
        protocol_errors: 7,
    }
}

#[test]
fn admin_json_texts() {
    assert_eq!(
        metrics_json(&snapshot()),
        "{\"active_connections\":1,\"total_connections\":2,\"active_subscriptions\":3,\"messages_published\":4,\"messages_delivered\":5,\"messages_dropped\":6,\"protocol_errors\":7}"
    );
    let info = StreamInfo {
        name: "a\"b".into(),
        config: StreamConfig { max_msgs: 1, max_bytes: 2, max_age_secs: 3 },
        state: StreamState { messages: 4, bytes: 5, first_seq: 6, last_seq: 7 },
    };
    let one = "{\"name\":\"a\\\"b\",\"config\":{\"max_msgs\":1,\"max_bytes\":2,\"max_age_secs\":3},\"state\":{\"messages\":4,\"bytes\":5,\"first_seq\":6,\"last_seq\":7}}";
    assert_eq!(stream_json(&info), one);
    let two = vec![
        StreamInfo { name: "a\"b".into(), config: info.config, state: info.state },
        StreamInfo { name: "a\"b".into(), config: info.config, state: info.state },
    ];
    assert_eq!(streams_json(&two), format!("[{one},{one}]"));
    assert_eq!(streams_json(&[]), "[]");
    assert_eq!(escape_json_string("\\\n\r\t\u{1}x\u{7f}é"), "\\\\\\n\\r\\t\\u0001x\\u007fé");
    assert_eq!(
        json_response("200 OK", "é"),
        "HTTP/1.1 200 OK\r\nContent-Type: application/json\r\nContent-Length: 2\r\nConnection: close\r\n\r\né"
    );
    assert_eq!(first_line("GET / HTTP/1.1\r\nHost: x\r\n"), "GET / HTTP/1.1");
    assert_eq!(first_line("abc\r"), "abc\r");
    assert_eq!(first_line(""), "");
}

#[test]
fn admin_routes() {
    let broker: BrokerCore<Recorder> = BrokerCore::new();
    let mut store = MemoryStore::new();
    store.create_stream("s", StreamConfig::default()).unwrap();
    let health = admin_response(b"GET /healthz HTTP/1.1\r\n\r\n", &broker, &store);
    assert!(health.starts_with("HTTP/1.1 200 OK\r\n"));
    assert!(health.ends_with("\r\n\r\n{\"status\":\"ok\"}"));
    let post = admin_response(b"POST /healthz HTTP/1.1\r\n", &broker, &store);
    assert!(post.starts_with("HTTP/1.1 405 Method Not Allowed\r\n"));
    assert!(post.ends_with("{\"error\":\"method not allowed\"}"));
    let missing = admin_response(b"GET /nope HTTP/1.1\r\n", &broker, &store);
    assert!(missing.starts_with("HTTP/1.1 404 Not Found\r\n"));
    let streams = admin_response(b"GET /streams HTTP/1.1\r\n", &broker, &store);
    assert!(streams.ends_with("[{\"name\":\"s\",\"config\":{\"max_msgs\":0,\"max_bytes\":0,\"max_age_secs\":0},\"state\":{\"messages\":0,\"bytes\":0,\"first_seq\":1,\"last_seq\":0}}]"));
    let stats = admin_response(b"GET /stats HTTP/1.1\r\n", &broker, &store);
    assert!(stats.contains("{\"metrics\":{\"active_connections\":0"));
    let metrics = admin_response(b"  GET   /metrics  ", &broker, &store);
    assert!(metrics.ends_with("\"protocol_errors\":0}"));
}

#[test]
fn validate_auth_refusal_messages() {
    let mut config = ServerConfig::default();
    config.auth.auth_type = "userpass".into();
    config.auth.users = vec![UserConfig {
        username: "admin".into(),
        password: "secret".into(),
        permissions: PermissionsConfig { publish: vec![], subscribe: vec![] },
    }];
    let wrong = validate_auth(&AuthInfo::UserPass { username: "admin".into(), password: "x".into() }, &config);
    assert_eq!(wrong.err().as_deref(), Some("authentication failed: invalid username or password"));
    let missing = validate_auth(&AuthInfo::Token("t".into()), &config);
    assert_eq!(missing.err().as_deref(), Some("authentication failed: username/password required"));

    let mut config = ServerConfig::default();
    config.auth.auth_type = "token".into();
    config.auth.token = Some("s3cret".into());
    assert!(validate_auth(&AuthInfo::Token("s3cret".into()), &config).is_ok());
    let bad = validate_auth(&AuthInfo::Anonymous, &config);
    assert_eq!(bad.err().as_deref(), Some("authentication failed: invalid token"));
}

#[test]
fn escaped_json_reads_back_as_the_input() {
    for input in ["plain", "say \"hi\"", "back\\slash", "tab\tline\nfeed\r", "\u{1}\u{1f}\u{7f}\u{9f}", "naïve ☃"] {
        let escaped = escape_json_string(input);
        assert!(!escaped.chars().any(|c| c.is_control()));
        let literal = format!("\"{}\"", escaped);
        let back: String = serde_json::from_str(&literal).unwrap();
        assert_eq!(back, input);
    }
    assert_eq!(escape_json_string("say \"hi\""), "say \\\"hi\\\"");
}

#[test]
fn finish_flushes_counts_and_drops_the_connection() {
    let mut broker: BrokerCore<Recorder> = BrokerCore::new();
    let conn = ConnectionId::new(4);
    let d = recorder();
    broker.subscribe(conn, SubjectPattern::parse("a").unwrap(), None, d.clone());
    broker.subscribe(conn, SubjectPattern::parse("b").unwrap(), None, d.clone());
    broker.subscribe(ConnectionId::new(5), SubjectPattern::parse("c").unwrap(), None, d.clone());
    broker.metrics_mut().inc_active_connections();
    let mut session = Session::new();
    session.local_published = 3;
    session.finish(&mut broker, conn);
    let snap = broker.metrics().snapshot();
    assert_eq!(snap.messages_published, 3);
    assert_eq!(snap.active_subscriptions, 1);
    assert_eq!(snap.active_connections, 0);
    assert_eq!(session.local_published, 0);
}
