use zetmq::command::{AuthInfo, BrokerCommand};
use zetmq::error::ProtocolError;
use zetmq::frame::{Frame, FrameHeader, FrameType, CURRENT_VERSION, ZETMQ_MAGIC};
use zetmq::headers::{decode_headers, encode_headers};
use zetmq::message::HeaderMap;
use zetmq::stream_cmd::{AckCommand, CreateStreamCommand, DeleteStreamCommand, NackCommand, StreamInfoResponse};

const MAX_FRAME: usize = 2 * 1024 * 1024;

fn make_pub_frame(subject: &str, payload: &[u8]) -> Frame {
    let mut data = Vec::new();
    let subj_bytes = subject.as_bytes();
    data.extend_from_slice(&(subj_bytes.len() as u16).to_be_bytes());
    data.extend_from_slice(subj_bytes);
    data.extend_from_slice(&0u16.to_be_bytes());
    data.extend_from_slice(payload);
    Frame::new(FrameType::Pub, 1).with_payload(data)
}

fn make_sub_frame(pattern: &str, queue_group: Option<&str>) -> Frame {
    let mut data = Vec::new();
    let pat_bytes = pattern.as_bytes();
    data.push(pat_bytes.len() as u8);
    data.extend_from_slice(pat_bytes);
    if let Some(qg) = queue_group {
        let qg_bytes = qg.as_bytes();
        data.push(qg_bytes.len() as u8);
        data.extend_from_slice(qg_bytes);
    }
    Frame::new(FrameType::Sub, 2).with_payload(data)
}


#[test]
fn parse_connect_no_auth() {
    let frame = Frame::new(FrameType::Connect, 1);
    let cmd = BrokerCommand::from_frame(frame).unwrap();
    match cmd {
        BrokerCommand::Connect(c) => {
            assert_eq!(c.protocol_version, 1);
            assert_eq!(c.auth, AuthInfo::Anonymous);
        }
        _ => panic!("expected Connect"),
    }
}

#[test]
fn parse_connect_with_token() {
    let mut payload = vec![1u8];
    let token = b"secret-token";
    payload.extend_from_slice(&(token.len() as u16).to_be_bytes());
    payload.extend_from_slice(token);
    let frame = Frame::new(FrameType::Connect, 1).with_payload(payload);
    let cmd = BrokerCommand::from_frame(frame).unwrap();
    match cmd {
        BrokerCommand::Connect(c) => {
            assert_eq!(c.auth, AuthInfo::Token("secret-token".into()));
        }
        _ => panic!("expected Connect"),
    }
}

#[test]
fn parse_connect_with_userpass() {
    let mut payload = vec![2u8];
    let user = b"admin";
    let pass = b"password123";
    payload.extend_from_slice(&(user.len() as u16).to_be_bytes());
    payload.extend_from_slice(user);
    payload.extend_from_slice(&(pass.len() as u16).to_be_bytes());
    payload.extend_from_slice(pass);
    let frame = Frame::new(FrameType::Connect, 1).with_payload(payload);
    let cmd = BrokerCommand::from_frame(frame).unwrap();
    match cmd {
        BrokerCommand::Connect(c) => {
            assert_eq!(
                c.auth,
                AuthInfo::UserPass { username: "admin".into(), password: "password123".into() }
            );
        }
        _ => panic!("expected Connect"),
    }
}

#[test]
fn parse_pub() {
    let frame = make_pub_frame("orders.created", b"hello");
    let cmd = BrokerCommand::from_frame(frame).unwrap();
    match cmd {
        BrokerCommand::Publish(p) => {
            assert_eq!(&p.subject[..], b"orders.created");
            assert_eq!(&p.payload[..], b"hello");
        }
        _ => panic!("expected Publish"),
    }
}

#[test]
fn parse_sub() {
    let frame = make_sub_frame("orders.*", Some("workers"));
    let cmd = BrokerCommand::from_frame(frame).unwrap();
    match cmd {
        BrokerCommand::Subscribe(s) => {
            assert_eq!(s.subject_pattern, "orders.*");
            assert_eq!(s.queue_group.as_deref(), Some("workers"));
        }
        _ => panic!("expected Subscribe"),
    }
}

#[test]
fn parse_ping() {
    let frame = Frame::new(FrameType::Ping, 0);
    let cmd = BrokerCommand::from_frame(frame).unwrap();
    assert!(matches!(cmd, BrokerCommand::Ping(_)));
}

#[test]
fn create_stream_roundtrip() {
    let cmd = CreateStreamCommand { name: "orders".into(), max_msgs: 1000, max_bytes: 0, max_age_secs: 3600 };
    let payload = cmd.encode_payload();
    let decoded = CreateStreamCommand::decode(&payload).unwrap();
    assert_eq!(decoded.name, "orders");
    assert_eq!(decoded.max_msgs, 1000);
    assert_eq!(decoded.max_age_secs, 3600);
}

#[test]
fn delete_stream_roundtrip() {
    let cmd = DeleteStreamCommand { name: "orders".into() };
    let payload = cmd.encode_payload();
    let decoded = DeleteStreamCommand::decode(&payload).unwrap();
    assert_eq!(decoded.name, "orders");
}

#[test]
fn ack_roundtrip() {
    let cmd = AckCommand { stream: "orders".into(), sequence: 42 };
    let payload = cmd.encode_payload();
    let decoded = AckCommand::decode(&payload).unwrap();
    assert_eq!(decoded.stream, "orders");
    assert_eq!(decoded.sequence, 42);
}

#[test]
fn stream_info_roundtrip() {
    let info = StreamInfoResponse {
        name: "orders".into(),
        messages: 100,
        bytes: 4096,
        first_seq: 1,
        last_seq: 100,
        max_msgs: 1000,
        max_bytes: 1_000_000,
        max_age_secs: 3600,
    };
    let payload = info.encode_payload();
    let decoded = StreamInfoResponse::decode(&payload).unwrap();
    assert_eq!(decoded.name, "orders");
    assert_eq!(decoded.messages, 100);
    assert_eq!(decoded.last_seq, 100);
}

#[test]
fn frame_encode_decode_roundtrip() {
    let frame = Frame::new(FrameType::Pub, 1).with_payload(b"hello world".to_vec());
    let encoded = frame.encode();
    let mut buf = encoded.clone();
    let decoded = Frame::decode_from(&mut buf, MAX_FRAME).unwrap().unwrap();
    assert_eq!(decoded.frame_type().unwrap(), FrameType::Pub);
    assert_eq!(decoded.payload, b"hello world".to_vec());
}

#[test]
fn incomplete_frame_returns_none() {
    let mut buf = b"\x5A\x4D".to_vec();
    let result = Frame::decode_from(&mut buf, MAX_FRAME).unwrap();
    assert!(result.is_none());
}

#[test]
fn frame_too_large() {
    let frame = Frame::new(FrameType::Pub, 1).with_payload(vec![0u8; 100]);
    let mut buf = frame.encode();
    let result = Frame::decode_from(&mut buf, 10);
    assert!(matches!(result, Err(ProtocolError::FrameTooLarge { .. })));
}

#[test]
fn two_frames_in_buffer() {
    let f1 = Frame::new(FrameType::Ping, 1);
    let f2 = Frame::new(FrameType::Pong, 2);
    let mut buf = Vec::new();
    buf.extend_from_slice(&f1.encode());
    buf.extend_from_slice(&f2.encode());
    let decoded1 = Frame::decode_from(&mut buf, MAX_FRAME).unwrap().unwrap();
    assert_eq!(decoded1.frame_type().unwrap(), FrameType::Ping);
    let decoded2 = Frame::decode_from(&mut buf, MAX_FRAME).unwrap().unwrap();
    assert_eq!(decoded2.frame_type().unwrap(), FrameType::Pong);
}

#[test]
fn roundtrip_all_types() {
    let types = [
        FrameType::Connect,
        FrameType::Connack,
        FrameType::Ping,
        FrameType::Pong,
        FrameType::Pub,
        FrameType::Msg,
        FrameType::Sub,
        FrameType::Suback,
        FrameType::Unsub,
        FrameType::Unsuback,
        FrameType::Error,
    ];
    for ft in types {
        assert_eq!(FrameType::from_u8(ft.as_u8()).unwrap(), ft);
    }
}

#[test]
fn unknown_type_rejected() {
    assert!(FrameType::from_u8(0xFF).is_err());
}

#[test]
fn header_encode_decode_roundtrip() {
    let header = FrameHeader::new(0x20, 42).with_payload_size(0, 5);
    let mut buf = Vec::new();
    header.encode(&mut buf);
    let decoded = FrameHeader::decode(&buf).unwrap();
    assert_eq!(decoded.magic, ZETMQ_MAGIC);
    assert_eq!(decoded.version, CURRENT_VERSION);
    assert_eq!(decoded.frame_type, 0x20);
    assert_eq!(decoded.correlation_id, 42);
    assert_eq!(decoded.payload_len, 5);
}

#[test]
fn reject_incomplete_header() {
    let buf = b"\x5A\x4D\x01".to_vec();
    let result = FrameHeader::decode(&buf);
    assert!(result.is_err());
}

#[test]
fn reject_bad_magic() {
    let mut buf = Vec::new();
    buf.extend_from_slice(&0x0000u16.to_be_bytes());
    buf.push(1);
    buf.push(0x01);
    buf.extend_from_slice(&0u16.to_be_bytes());
    buf.extend_from_slice(&0u64.to_be_bytes());
    buf.extend_from_slice(&0u32.to_be_bytes());
    buf.extend_from_slice(&0u32.to_be_bytes());
    let result = FrameHeader::decode(&buf);
    assert!(matches!(result, Err(ProtocolError::InvalidMagic { .. })));
}

#[test]
fn roundtrip_empty() {
    let headers = HeaderMap::new();
    let mut buf = Vec::new();
    encode_headers(&headers, &mut buf);
    let decoded = decode_headers(&buf).unwrap();
    assert!(decoded.is_empty());
}

#[test]
fn roundtrip_single() {
    let mut headers = HeaderMap::new();
    headers.insert("Content-Type".to_string(), "application/json".to_string());
    let mut buf = Vec::new();
    encode_headers(&headers, &mut buf);
    let decoded = decode_headers(&buf).unwrap();
    assert_eq!(decoded.get("Content-Type").unwrap(), "application/json");
}

#[test]
fn roundtrip_multiple() {
    let mut headers = HeaderMap::new();
    headers.insert("x-trace-id".to_string(), "abc123".to_string());
    headers.insert("x-source".to_string(), "order-service".to_string());
    let mut buf = Vec::new();
    encode_headers(&headers, &mut buf);
    let decoded = decode_headers(&buf).unwrap();
    assert_eq!(decoded.len(), 2);
    assert_eq!(decoded.get("x-trace-id").unwrap(), "abc123");
    assert_eq!(decoded.get("x-source").unwrap(), "order-service");
}

#[test]
fn decode_truncated_key() {
    let data: &[u8] = &[0, 1, 0, 5];
    let result = decode_headers(data);
    assert!(result.is_err());
}

#[test]
fn stream_frames_decode_as_commands() {
    let create = CreateStreamCommand { name: "orders".into(), max_msgs: 5, max_bytes: 6, max_age_secs: 7 };
    let frame = Frame::new(FrameType::CreateStream, 3).with_payload(create.encode_payload());
    match BrokerCommand::from_frame(frame).unwrap() {
        BrokerCommand::CreateStream(c) => {
            assert_eq!(c.name, "orders");
            assert_eq!((c.max_msgs, c.max_bytes, c.max_age_secs), (5, 6, 7));
        }
        _ => panic!("expected CreateStream"),
    }
    let nack = NackCommand { stream: "s".into(), sequence: 9 };
    let frame = Frame::new(FrameType::Nack, 0).with_payload(nack.encode_payload());
    match BrokerCommand::from_frame(frame).unwrap() {
        BrokerCommand::Nack(n) => assert_eq!((n.stream.as_str(), n.sequence), ("s", 9)),
        _ => panic!("expected Nack"),
    }
    let bad = Frame::new(FrameType::DeleteStream, 0);
    assert!(matches!(BrokerCommand::from_frame(bad), Err(ProtocolError::DecodingError(_))));
}

#[test]
fn server_only_frame_is_not_a_command() {
    let frame = Frame::new(FrameType::Msg, 0);
    assert!(matches!(BrokerCommand::from_frame(frame), Err(ProtocolError::DecodingError(_))));
}

#[test]
fn header_names_stay_distinct() {
    let mut headers = HeaderMap::new();
    headers.insert("a".to_string(), "1".to_string());
    headers.insert("b".to_string(), "2".to_string());
    headers.insert("a".to_string(), "3".to_string());
    assert_eq!(headers.len(), 2);
    assert_eq!(headers.get("a").unwrap(), "3");
    assert_eq!(headers.entry(0).0, "a");
    assert!(headers.get("c").is_none());
    let mut buf = Vec::new();
    encode_headers(&headers, &mut buf);
    let decoded = decode_headers(&buf).unwrap();
    assert_eq!(decoded.len(), 2);
    assert_eq!(decoded.get("a").unwrap(), "3");
}
