use zetmq::consumer::{AckPolicy, ConsumerConfig, ConsumerManager, DeliverPolicy};
use zetmq::error::StoreError;
use zetmq::memory::MemoryStore;
use zetmq::segment::{decode_record, encode_record, SegmentIndex};
use zetmq::stream::{Stream, StreamConfig};

#[test]
fn store_and_read() {
    let mut stream = Stream::new("test".into(), StreamConfig::default());
    let seq = stream.store("foo".into(), None, b"hello".to_vec(), None);
    assert_eq!(seq, 1);
    let msg = stream.read(1).unwrap();
    assert_eq!(msg.subject, "foo");
    assert_eq!(&msg.payload[..], b"hello");
}

#[test]
fn read_range() {
    let mut stream = Stream::new("test".into(), StreamConfig::default());
    for i in 0..5u8 {
        stream.store("s".into(), None, vec![i], None);
    }
    let range = stream.read_range(2, 4);
    assert_eq!(range.len(), 3);
    assert_eq!(range[0].sequence, 2);
    assert_eq!(range[2].sequence, 4);
}

#[test]
fn max_msgs_retention() {
    let mut stream = Stream::new("test".into(), StreamConfig::default().with_max_msgs(3));
    for i in 1..=5u8 {
        stream.store("s".into(), None, vec![i], None);
    }
    assert_eq!(stream.state().messages, 3);
    assert_eq!(stream.state().first_seq, 3);
    assert_eq!(stream.state().last_seq, 5);
    assert!(stream.read(1).is_none());
    assert!(stream.read(3).is_some());
}

#[test]
fn max_bytes_retention() {
    let mut stream = Stream::new("test".into(), StreamConfig::default().with_max_bytes(10));
    stream.store("s".into(), None, vec![0; 4], None);
    stream.store("s".into(), None, vec![0; 4], None);
    stream.store("s".into(), None, vec![0; 4], None);
    assert!(stream.state().bytes <= 10);
}

#[test]
fn create_and_use_stream() {
    let mut store = MemoryStore::new();
    let info = store.create_stream("orders", StreamConfig::default().with_max_msgs(100)).unwrap();
    assert_eq!(info.name, "orders");
    let seq = store.store_message("orders", "orders.created".into(), None, b"order-1".to_vec(), None).unwrap();
    assert_eq!(seq, 1);
    let msg = store.read_message("orders", 1).unwrap();
    assert_eq!(msg.subject, "orders.created");
    assert_eq!(&msg.payload[..], b"order-1");
}

#[test]
fn duplicate_stream() {
    let mut store = MemoryStore::new();
    store.create_stream("x", StreamConfig::default()).unwrap();
    let err = store.create_stream("x", StreamConfig::default());
    assert!(matches!(err, Err(StoreError::StreamAlreadyExists(_))));
}

#[test]
fn auto_create_on_store() {
    let mut store = MemoryStore::new();
    store.store_message("auto", "s".into(), None, b"hi".to_vec(), None).unwrap();
    let info = store.stream_info("auto").unwrap();
    assert_eq!(info.state.messages, 1);
}

#[test]
fn delete_stream() {
    let mut store = MemoryStore::new();
    store.create_stream("del", StreamConfig::default()).unwrap();
    store.delete_stream("del").unwrap();
    assert!(store.stream_info("del").is_err());
}

#[test]
fn list_streams() {
    let mut store = MemoryStore::new();
    store.create_stream("a", StreamConfig::default()).unwrap();
    store.create_stream("b", StreamConfig::default()).unwrap();
    let list = store.list_streams();
    assert_eq!(list.len(), 2);
}

fn config(stream: &str, name: &str, max_ack_pending: u64) -> ConsumerConfig {
    ConsumerConfig {
        durable_name: name.into(),
        stream: stream.into(),
        filter_subject: None,
        deliver_policy: DeliverPolicy::All,
        ack_policy: AckPolicy::Explicit,
        max_ack_pending,
    }
}

#[test]
fn consumer_deliver_all() {
    let mut store = MemoryStore::new();
    store.create_stream("orders", StreamConfig::default()).unwrap();
    for i in 0..3u8 {
        store.store_message("orders", format!("s.{i}"), None, vec![i], None).unwrap();
    }
    let mut mgr = ConsumerManager::new(store);
    mgr.create_consumer(config("orders", "worker1", 0)).unwrap();
    let msg1 = mgr.next_for_consumer("orders", "worker1").unwrap();
    assert!(msg1.is_some());
    assert_eq!(msg1.unwrap().sequence, 1);
}

#[test]
fn consumer_ack_flow() {
    let mut store = MemoryStore::new();
    store.create_stream("test", StreamConfig::default()).unwrap();
    store.store_message("test", "s".into(), None, b"hi".to_vec(), None).unwrap();
    let mut mgr = ConsumerManager::new(store);
    mgr.create_consumer(config("test", "c1", 0)).unwrap();
    let msg = mgr.next_for_consumer("test", "c1").unwrap().unwrap();
    assert!(mgr.ack("test", "c1", msg.sequence));
}

#[test]
fn backpressure_limits_delivery() {
    let mut store = MemoryStore::new();
    store.create_stream("bp", StreamConfig::default()).unwrap();
    for i in 0..5u8 {
        store.store_message("bp", "s".into(), None, vec![i], None).unwrap();
    }
    let mut mgr = ConsumerManager::new(store);
    mgr.create_consumer(config("bp", "c", 2)).unwrap();
    let _ = mgr.next_for_consumer("bp", "c").unwrap();
    let _ = mgr.next_for_consumer("bp", "c").unwrap();
    let msg = mgr.next_for_consumer("bp", "c").unwrap();
    assert!(msg.is_none());
}

#[test]
fn append_and_read() {
    let mut seg = SegmentIndex::new(1);
    let (seq, record) = seg.encode_next("test.subject", None, b"hello", 1000);
    assert_eq!(seq, 1);
    let mut file = Vec::new();
    file.extend_from_slice(&record);
    seg.record_written(1000, record.len() as u64);
    let offset = seg.offset_of(1).unwrap() as usize;
    let rec = decode_record(&file[offset..]).unwrap();
    assert_eq!(rec.sequence, 1);
    assert_eq!(rec.subject, "test.subject");
    assert_eq!(&rec.payload[..], b"hello");
}

#[test]
fn multiple_records() {
    let mut seg = SegmentIndex::new(1);
    let mut file = Vec::new();
    for i in 0u8..10 {
        let (_, record) = seg.encode_next("s", None, &[i], 1000 + i as u64);
        file.extend_from_slice(&record);
        seg.record_written(1000 + i as u64, record.len() as u64);
    }
    assert_eq!(seg.len(), 10);
    let offset = seg.offset_of(5).unwrap() as usize;
    let r5 = decode_record(&file[offset..]).unwrap();
    assert_eq!(&r5.payload[..], &[4]);
}

#[test]
fn rebuild_index_on_open() {
    let mut file = Vec::new();
    {
        let mut seg = SegmentIndex::new(1);
        for i in 0u8..5 {
            let (_, record) = seg.encode_next("s", Some("reply"), &[i], 2000);
            file.extend_from_slice(&record);
            seg.record_written(2000, record.len() as u64);
        }
    }
    let seg = SegmentIndex::rebuild(&file, 1);
    assert_eq!(seg.len(), 5);
    let offset = seg.offset_of(3).unwrap() as usize;
    let r = decode_record(&file[offset..]).unwrap();
    assert_eq!(&r.payload[..], &[2]);
    assert_eq!(r.reply_to.as_deref(), Some("reply"));
}

#[test]
fn record_bytes_layout() {
    let rec = encode_record(7, 9, "ab", Some("r"), &[1, 2]);
    let mut expected = Vec::new();
    expected.extend_from_slice(&7u64.to_be_bytes());
    expected.extend_from_slice(&9u64.to_be_bytes());
    expected.extend_from_slice(&2u16.to_be_bytes());
    expected.extend_from_slice(b"ab");
    expected.extend_from_slice(&1u16.to_be_bytes());
    expected.extend_from_slice(b"r");
    expected.extend_from_slice(&2u32.to_be_bytes());
    expected.extend_from_slice(&[1, 2]);
    assert_eq!(rec, expected);
}
