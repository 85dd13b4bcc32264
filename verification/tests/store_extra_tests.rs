use zetmq::consumer::{AckPolicy, Consumer, ConsumerConfig, ConsumerManager, DeliverPolicy};
use zetmq::error::StoreError;
use zetmq::memory::MemoryStore;
use zetmq::segment::{decode_record, SegmentIndex};
use zetmq::stream::{Stream, StreamConfig};

fn config(policy: DeliverPolicy, max_ack_pending: u64) -> ConsumerConfig {
    ConsumerConfig {
        durable_name: "c".into(),
        stream: "s".into(),
        filter_subject: None,
        deliver_policy: policy,
        ack_policy: AckPolicy::Explicit,
        max_ack_pending,
    }
}

#[test]
fn age_retention_drops_old_messages() {
    let mut stream = Stream::new("t".into(), StreamConfig::default().with_max_age_secs(10));
    stream.store_at("s".into(), None, vec![1], None, 1_000, 1_000);
    stream.store_at("s".into(), None, vec![2], None, 5_000, 5_000);
    let seq = stream.store_at("s".into(), None, vec![3], None, 12_000, 12_000);
    assert_eq!(seq, 3);
    assert_eq!(stream.state().first_seq, 2);
    assert_eq!(stream.state().messages, 2);
    assert!(stream.read(1).is_none());
    assert_eq!(stream.read(3).unwrap().payload, vec![3]);
}

#[test]
fn expired_message_is_dropped_even_when_new() {
    let mut stream = Stream::new("t".into(), StreamConfig::default().with_max_age_secs(1));
    let seq = stream.store_at("s".into(), None, vec![1], None, 0, 5_000);
    assert_eq!(seq, 1);
    assert_eq!(stream.state().messages, 0);
    assert_eq!(stream.state().first_seq, 2);
    assert_eq!(stream.state().last_seq, 1);
    assert!(stream.read(1).is_none());
}

#[test]
fn byte_retention_keeps_newest_message() {
    let mut stream = Stream::new("t".into(), StreamConfig::default().with_max_bytes(3));
    stream.store_at("s".into(), None, vec![0; 2], None, 0, 0);
    stream.store_at("s".into(), None, vec![0; 10], None, 0, 0);
    assert_eq!(stream.state().messages, 1);
    assert_eq!(stream.state().bytes, 10);
    assert_eq!(stream.state().first_seq, 2);
}

#[test]
fn read_range_clips_to_held_messages() {
    let mut stream = Stream::new("t".into(), StreamConfig::default().with_max_msgs(2));
    for i in 0..4u8 {
        stream.store_at("s".into(), Some("r".into()), vec![i], None, 0, 0);
    }
    let r = stream.read_range(0, 100);
    assert_eq!(r.iter().map(|m| m.sequence).collect::<Vec<_>>(), vec![3, 4]);
    assert!(stream.read_range(5, 9).is_empty());
    assert_eq!(r[0].reply_to.as_deref(), Some("r"));
}

#[test]
fn stream_info_reports_counters() {
    let mut stream = Stream::new("t".into(), StreamConfig::default());
    stream.store_at("s".into(), None, vec![1, 2, 3], None, 0, 0);
    let info = stream.info();
    assert_eq!(info.name, "t");
    assert_eq!((info.state.messages, info.state.bytes, info.state.first_seq, info.state.last_seq), (1, 3, 1, 1));
    assert_eq!(stream.name(), "t");
    assert_eq!(stream.config().max_msgs, 0);
}

#[test]
fn read_message_errors() {
    let mut store = MemoryStore::new();
    assert!(matches!(store.read_message("nope", 1), Err(StoreError::StreamNotFound(n)) if n == "nope"));
    store.store_message_at("s", "x".into(), None, vec![1], None, 0, 0).unwrap();
    match store.read_message("s", 5) {
        Err(StoreError::InvalidOffset { requested, max }) => assert_eq!((requested, max), (5, 1)),
        _ => panic!("expected invalid offset"),
    }
    assert!(matches!(store.read_range("nope", 1, 2), Err(StoreError::StreamNotFound(_))));
    assert_eq!(store.read_range("s", 1, 9).unwrap().len(), 1);
    assert_eq!(StoreError::InvalidOffset { requested: 5, max: 1 }.to_string(), "invalid offset: expected <= 1, got 5");
    assert_eq!(StoreError::StreamNotFound("x".into()).to_string(), "stream not found: x");
}

#[test]
fn consumer_start_policies() {
    assert_eq!(Consumer::new(config(DeliverPolicy::All, 0), 9).next_sequence(), 1);
    assert_eq!(Consumer::new(config(DeliverPolicy::Last, 0), 9).next_sequence(), 9);
    assert_eq!(Consumer::new(config(DeliverPolicy::Last, 0), 0).next_sequence(), 1);
    assert_eq!(Consumer::new(config(DeliverPolicy::New, 0), 9).next_sequence(), 10);
    assert_eq!(Consumer::new(config(DeliverPolicy::ByStartSequence { sequence: 4 }, 0), 9).next_sequence(), 4);
    assert_eq!(DeliverPolicy::default(), DeliverPolicy::New);
    assert_eq!(AckPolicy::default(), AckPolicy::Explicit);
}

#[test]
fn consumer_delivery_and_ack_counts() {
    let mut c = Consumer::new(config(DeliverPolicy::All, 2), 0);
    c.record_delivery_at(1, 100);
    c.record_delivery_at(2, 200);
    assert!(c.is_backpressured());
    assert_eq!(c.state().pending_acks.get(&2), Some(&200));
    assert!(c.ack(1));
    assert!(!c.ack(1));
    assert_eq!(c.state().pending_ack_count, 1);
    assert_eq!(c.state().acked_count, 1);
    assert_eq!(c.state().delivered_count, 2);
    assert!(!c.is_backpressured());
}

#[test]
fn consumer_manager_errors() {
    let mut store = MemoryStore::new();
    store.create_stream("s", StreamConfig::default()).unwrap();
    let mut mgr = ConsumerManager::new(store);
    assert!(matches!(mgr.create_consumer(ConsumerConfig { stream: "x".into(), ..config(DeliverPolicy::All, 0) }), Err(StoreError::StreamNotFound(n)) if n == "x"));
    mgr.create_consumer(config(DeliverPolicy::All, 0)).unwrap();
    match mgr.create_consumer(config(DeliverPolicy::All, 0)) {
        Err(StoreError::StreamAlreadyExists(m)) => assert_eq!(m, "consumer c on stream s"),
        _ => panic!("expected duplicate"),
    }
    assert!(mgr.get_consumer("s", "c").is_ok());
    match mgr.get_consumer("s", "d") {
        Err(StoreError::StreamNotFound(m)) => assert_eq!(m, "consumer d on stream s"),
        _ => panic!("expected missing"),
    }
    match mgr.next_for_consumer("s", "d") {
        Err(StoreError::StreamNotFound(m)) => assert_eq!(m, "consumer d"),
        _ => panic!("expected missing"),
    }
    assert!(mgr.next_for_consumer("s", "c").unwrap().is_none());
    assert!(!mgr.ack("s", "d", 1));
    mgr.delete_consumer("s", "c").unwrap();
    assert!(mgr.get_consumer("s", "c").is_err());
}

#[test]
fn consumer_reads_what_is_stored_later() {
    let mut mgr = ConsumerManager::new(MemoryStore::new());
    mgr.store_mut().create_stream("s", StreamConfig::default()).unwrap();
    mgr.create_consumer(config(DeliverPolicy::New, 0)).unwrap();
    assert!(mgr.next_for_consumer_at("s", "c", 1).unwrap().is_none());
    mgr.store_mut().store_message_at("s", "a".into(), None, vec![7], None, 0, 0).unwrap();
    let m = mgr.next_for_consumer_at("s", "c", 2).unwrap().unwrap();
    assert_eq!((m.sequence, m.payload.clone()), (1, vec![7]));
    assert!(mgr.ack("s", "c", 1));
    assert!(!mgr.ack("s", "c", 1));
    assert_eq!(mgr.store().list_streams().len(), 1);
}

#[test]
fn rebuild_index_counts_truncated_tail() {
    let mut seg = SegmentIndex::new(10);
    let mut file = Vec::new();
    let (seq, rec) = seg.encode_next("s", None, b"abc", 5);
    assert_eq!(seq, 10);
    file.extend_from_slice(&rec);
    seg.record_written(5, rec.len() as u64);
    let (_, rec2) = seg.encode_next("t", None, b"defgh", 6);
    file.extend_from_slice(&rec2[..rec2.len() - 2]);
    let rebuilt = SegmentIndex::rebuild(&file, 10);
    assert_eq!(rebuilt.len(), 2);
    assert_eq!(rebuilt.last_sequence(), Some(11));
    assert_eq!(rebuilt.offset_of(11), Some(rec.len() as u64));
    assert!(decode_record(&file[rec.len()..]).is_none());
    assert_eq!(rebuilt.offset_of(9), None);
    assert_eq!(rebuilt.offset_of(12), None);
    let half = SegmentIndex::rebuild(&file[..10], 1);
    assert!(half.is_empty());
    assert_eq!(half.last_sequence(), None);
}

#[test]
fn empty_reply_reads_as_none() {
    let mut seg = SegmentIndex::new(1);
    let (_, rec) = seg.encode_next("s", Some(""), b"", 0);
    let r = decode_record(&rec).unwrap();
    assert!(r.reply_to.is_none());
    assert!(r.payload.is_empty());
    assert_eq!(r.timestamp, 0);
}

#[test]
fn filtered_consumer_skips_other_subjects() {
    let mut mgr = ConsumerManager::new(MemoryStore::new());
    mgr.store_mut().create_stream("orders", StreamConfig::default()).unwrap();
    mgr.store_mut().store_message_at("orders", "a.x".into(), None, vec![1], None, 0, 0).unwrap();
    mgr.store_mut().store_message_at("orders", "b.y".into(), None, vec![2], None, 0, 0).unwrap();
    mgr.create_consumer(ConsumerConfig {
        durable_name: "c".into(),
        stream: "orders".into(),
        filter_subject: Some("b.*".into()),
        deliver_policy: DeliverPolicy::All,
        ack_policy: AckPolicy::Explicit,
        max_ack_pending: 0,
    })
    .unwrap();
    let m = mgr.next_for_consumer("orders", "c").unwrap().unwrap();
    assert_eq!(m.sequence, 2);
    assert_eq!(m.subject, "b.y");
    assert!(mgr.next_for_consumer("orders", "c").unwrap().is_none());
}

#[test]
fn cumulative_ack_clears_earlier_sequences() {
    let mut c = Consumer::new(
        ConsumerConfig { ack_policy: AckPolicy::All, ..config(DeliverPolicy::All, 0) },
        0,
    );
    c.record_delivery(1);
    c.record_delivery(2);
    c.record_delivery(3);
    assert_eq!(c.state().pending_ack_count, 3);
    assert!(c.ack(3));
    assert!(c.state().pending_acks.is_empty());
    assert_eq!(c.state().pending_ack_count, 0);
}

#[test]
fn cumulative_ack_keeps_later_sequences() {
    let mut c = Consumer::new(
        ConsumerConfig { ack_policy: AckPolicy::All, ..config(DeliverPolicy::All, 0) },
        0,
    );
    c.record_delivery_at(1, 10);
    c.record_delivery_at(2, 20);
    c.record_delivery_at(3, 30);
    assert!(c.ack(2));
    assert_eq!(c.state().pending_ack_count, 1);
    assert_eq!(c.state().pending_acks.get(&3), Some(&30));
    assert!(!c.ack(2));
}

#[test]
fn explicit_ack_removes_only_its_sequence() {
    let mut c = Consumer::new(config(DeliverPolicy::All, 0), 0);
    c.record_delivery_at(1, 10);
    c.record_delivery_at(2, 20);
    assert!(c.ack(2));
    assert_eq!(c.state().pending_ack_count, 1);
    assert!(c.state().pending_acks.contains_key(&1));
}

#[test]
fn redelivery_keeps_pending_count_equal_to_pending_map() {
    let mut c = Consumer::new(config(DeliverPolicy::All, 0), 0);
    c.record_delivery_at(1, 10);
    c.record_delivery_at(1, 20);
    assert_eq!(c.state().pending_acks.len(), 1);
    assert_eq!(c.state().pending_ack_count, 1);
    assert_eq!(c.state().pending_acks.get(&1), Some(&20));
    assert_eq!(c.state().delivered_count, 2);
    assert_eq!(c.next_sequence(), 2);
}
