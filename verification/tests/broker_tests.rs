use std::sync::{Arc, Mutex};

use zetmq::broker::BrokerCore;
use zetmq::delivery::{batch_step, DeliveryHandle, DeliveryMessage, DeliveryStatus};
use zetmq::id::{ConnectionId, SubscriptionId};
use zetmq::message::Message;
use zetmq::queue_group::QueueGroupName;
use zetmq::registry::SubscriptionRegistry;
use zetmq::routing::RoutingEngine;
use zetmq::subject::Subject;
use zetmq::subject_pattern::SubjectPattern;
use zetmq::trie::{MatchResult, SubjectTrie};

struct FakeDelivery {
    delivered: Mutex<Vec<DeliveryMessage>>,
}

impl FakeDelivery {
    fn new() -> Arc<Self> {
        Arc::new(Self { delivered: Mutex::new(Vec::new()) })
    }

    fn count(&self) -> usize {
        self.delivered.lock().unwrap().len()
    }
}

impl DeliveryHandle for FakeDelivery {
    fn deliver(&self, msg: DeliveryMessage) -> DeliveryStatus {
        self.delivered.lock().unwrap().push(msg);
        DeliveryStatus::Delivered
    }
}

struct FailingDelivery;

impl DeliveryHandle for FailingDelivery {
    fn deliver(&self, _msg: DeliveryMessage) -> DeliveryStatus {
        DeliveryStatus::Failed("simulated failure".into())
    }
}

fn subject(s: &str) -> Subject {
    Subject::parse(s).unwrap()
}

fn pattern(s: &str) -> SubjectPattern {
    SubjectPattern::parse(s).unwrap()
}

#[test]
fn publish_no_subscribers() {
    let mut broker: BrokerCore<FakeDelivery> = BrokerCore::new();
    broker.publish(Message::new(subject("test"), b"hi".to_vec()));
    assert_eq!(broker.metrics().snapshot().messages_published, 1);
}

#[test]
fn publish_to_one_subscriber() {
    let mut broker = BrokerCore::new();
    let delivery = FakeDelivery::new();
    broker.subscribe(ConnectionId::new(1), pattern("orders.created"), None, delivery.clone());
    broker.publish(Message::new(subject("orders.created"), b"data".to_vec()));
    assert_eq!(delivery.count(), 1);
    assert_eq!(broker.metrics().snapshot().messages_delivered, 1);
}

#[test]
fn publish_to_multiple_subscribers() {
    let mut broker = BrokerCore::new();
    let d1 = FakeDelivery::new();
    let d2 = FakeDelivery::new();
    broker.subscribe(ConnectionId::new(1), pattern("events"), None, d1.clone());
    broker.subscribe(ConnectionId::new(2), pattern("events"), None, d2.clone());
    broker.publish(Message::new(subject("events"), b"hello".to_vec()));
    assert_eq!(d1.count(), 1);
    assert_eq!(d2.count(), 1);
}

#[test]
fn publish_failed_delivery_increments_dropped() {
    let mut broker = BrokerCore::new();
    broker.subscribe(ConnectionId::new(1), pattern("events"), None, Arc::new(FailingDelivery));
    broker.publish(Message::new(subject("events"), b"hello".to_vec()));
    let metrics = broker.metrics().snapshot();
    assert_eq!(metrics.messages_delivered, 0);
    assert_eq!(metrics.messages_dropped, 1);
}

#[test]
fn wildcard_delivery() {
    let mut broker = BrokerCore::new();
    let delivery = FakeDelivery::new();
    broker.subscribe(ConnectionId::new(1), pattern("orders.*"), None, delivery.clone());
    broker.publish(Message::new(subject("orders.created"), b"x".to_vec()));
    assert_eq!(delivery.count(), 1);
}

#[test]
fn unsubscribe_stops_delivery() {
    let mut broker = BrokerCore::new();
    let conn = ConnectionId::new(1);
    let delivery = FakeDelivery::new();
    let sub_id = broker.subscribe(conn, pattern("test"), None, delivery.clone());
    broker.publish(Message::new(subject("test"), b"first".to_vec()));
    assert_eq!(delivery.count(), 1);
    broker.unsubscribe(conn, sub_id);
    broker.publish(Message::new(subject("test"), b"second".to_vec()));
    assert_eq!(delivery.count(), 1);
}

#[test]
fn queue_group_round_robin() {
    let mut broker = BrokerCore::new();
    let d1 = FakeDelivery::new();
    let d2 = FakeDelivery::new();
    let qg = QueueGroupName::new("workers").unwrap();
    broker.subscribe(ConnectionId::new(1), pattern("jobs"), Some(qg.clone()), d1.clone());
    broker.subscribe(ConnectionId::new(2), pattern("jobs"), Some(qg.clone()), d2.clone());
    for _ in 0..4 {
        broker.publish(Message::new(subject("jobs"), b"task".to_vec()));
    }
    assert_eq!(d1.count(), 2);
    assert_eq!(d2.count(), 2);
    assert_eq!(broker.metrics().snapshot().messages_delivered, 4);
}

#[test]
fn disconnect_removes_all_subscriptions() {
    let mut broker = BrokerCore::new();
    let conn = ConnectionId::new(1);
    let delivery = FakeDelivery::new();
    broker.subscribe(conn, pattern("a"), None, delivery.clone());
    broker.subscribe(conn, pattern("b"), None, delivery.clone());
    assert_eq!(broker.metrics().snapshot().active_subscriptions, 2);
    broker.remove_connection(conn);
    assert_eq!(broker.metrics().snapshot().active_subscriptions, 0);
    broker.publish(Message::new(subject("a"), b"x".to_vec()));
    assert_eq!(delivery.count(), 0);
}

#[test]
fn create_message() {
    let subj = subject("orders.created");
    let payload = b"hello".to_vec();
    let msg = Message::new(subj.clone(), payload.clone());
    assert_eq!(msg.subject, subj);
    assert_eq!(msg.payload, payload);
    assert!(msg.reply_to.is_none());
    assert!(msg.timestamp_ns > 0);
}

#[test]
fn clone_preserves_payload() {
    let subj = subject("test");
    let payload = vec![0u8; 1024];
    let msg = Message::new(subj, payload);
    let cloned = msg.clone();
    assert_eq!(msg.payload.len(), cloned.payload.len());
}

#[test]
fn with_reply_to() {
    let subj = subject("req");
    let reply = subject("_INBOX.123");
    let msg = Message::new(subj, Vec::new()).with_reply_to(reply.clone());
    assert_eq!(msg.reply_to.unwrap(), reply);
}

#[test]
fn exact_match_routing() {
    let mut engine = RoutingEngine::new();
    let sub = SubscriptionId::new(1);
    engine.insert(&pattern("orders.created"), sub);
    assert_eq!(engine.match_subject(&subject("orders.created")).get(0), sub);
}

#[test]
fn no_match_different() {
    let mut engine = RoutingEngine::new();
    engine.insert(&pattern("orders.created"), SubscriptionId::new(1));
    assert!(engine.match_subject(&subject("orders.cancelled")).is_empty());
}

#[test]
fn wildcard_star() {
    let mut engine = RoutingEngine::new();
    let sub = SubscriptionId::new(1);
    engine.insert(&pattern("orders.*"), sub);
    assert_eq!(engine.match_subject(&subject("orders.created")).get(0), sub);
    assert!(engine.match_subject(&subject("orders.created.high")).is_empty());
}

#[test]
fn wildcard_gt() {
    let mut engine = RoutingEngine::new();
    let sub = SubscriptionId::new(1);
    engine.insert(&pattern("orders.>"), sub);
    assert_eq!(engine.match_subject(&subject("orders.created")).get(0), sub);
    assert_eq!(engine.match_subject(&subject("orders.created.high")).get(0), sub);
}

#[test]
fn exact_plus_wildcard_no_duplicates() {
    let mut engine = RoutingEngine::new();
    let sub1 = SubscriptionId::new(1);
    let sub2 = SubscriptionId::new(2);
    engine.insert(&pattern("orders.created"), sub1);
    engine.insert(&pattern("orders.*"), sub2);
    let matches = engine.match_subject(&subject("orders.created"));
    assert_eq!(matches.len(), 2);
    assert!(matches.contains(&sub1));
    assert!(matches.contains(&sub2));
}

#[test]
fn engine_remove_subscription() {
    let mut engine = RoutingEngine::new();
    let sub = SubscriptionId::new(1);
    engine.insert(&pattern("test"), sub);
    engine.remove(&pattern("test"), sub);
    assert!(engine.match_subject(&subject("test")).is_empty());
}

#[test]
fn no_wildcards_skips_trie() {
    let mut engine = RoutingEngine::new();
    engine.insert(&pattern("orders.created"), SubscriptionId::new(1));
    assert!(!engine.has_wildcards());
    let matches = engine.match_subject(&subject("orders.created"));
    assert_eq!(matches.len(), 1);
    engine.insert(&pattern("orders.*"), SubscriptionId::new(2));
    assert!(engine.has_wildcards());
}

#[test]
fn has_wildcards_resets_when_trie_empties() {
    let mut engine = RoutingEngine::new();
    let sub = SubscriptionId::new(1);
    engine.insert(&pattern("orders.*"), sub);
    assert!(engine.has_wildcards());
    engine.remove(&pattern("orders.*"), sub);
    assert!(!engine.has_wildcards(), "flag should reset to false when all wildcard subscriptions are removed");
}

#[test]
fn insert_and_match_exact() {
    let mut trie = SubjectTrie::new();
    let sub = SubscriptionId::new(1);
    trie.insert(&["orders".into(), "created".into()], sub, false);
    let subj = Subject::parse("orders.created").unwrap();
    let mut expected = MatchResult::new();
    expected.push(sub);
    assert_eq!(trie.match_subject(&subj), expected);
}

#[test]
fn no_match_different_subject() {
    let mut trie = SubjectTrie::new();
    trie.insert(&["orders".into(), "created".into()], SubscriptionId::new(1), false);
    let subj = Subject::parse("orders.cancelled").unwrap();
    assert!(trie.match_subject(&subj).is_empty());
}

#[test]
fn multi_wildcard_match() {
    let mut trie = SubjectTrie::new();
    let sub = SubscriptionId::new(10);
    trie.insert(&["orders".into(), ">".into()], sub, true);
    let s1 = Subject::parse("orders.created").unwrap();
    assert!(trie.match_subject(&s1).contains(&sub));
    let s2 = Subject::parse("orders.created.high").unwrap();
    assert!(trie.match_subject(&s2).contains(&sub));
}

#[test]
fn trie_remove_subscription() {
    let mut trie = SubjectTrie::new();
    let sub = SubscriptionId::new(1);
    trie.insert(&["test".into()], sub, false);
    trie.remove(&["test".into()], sub, false);
    let subj = Subject::parse("test").unwrap();
    assert!(trie.match_subject(&subj).is_empty());
}

struct NullDelivery;

impl DeliveryHandle for NullDelivery {
    fn deliver(&self, _msg: DeliveryMessage) -> DeliveryStatus {
        DeliveryStatus::Delivered
    }
}

fn registry() -> SubscriptionRegistry<NullDelivery> {
    SubscriptionRegistry::new(RoutingEngine::new())
}

#[test]
fn add_and_get() {
    let mut registry = registry();
    let delivery = Arc::new(NullDelivery);
    registry.add(SubscriptionId::new(1), ConnectionId::new(1), pattern("test"), None, None, delivery);
    assert!(registry.get(SubscriptionId::new(1)).is_some());
    assert_eq!(registry.count(), 1);
}

#[test]
fn registry_remove_subscription() {
    let mut registry = registry();
    let delivery = Arc::new(NullDelivery);
    registry.add(SubscriptionId::new(1), ConnectionId::new(1), pattern("test"), None, None, delivery);
    assert!(registry.remove(SubscriptionId::new(1)).is_some());
    assert_eq!(registry.count(), 0);
}

#[test]
fn remove_all_for_connection() {
    let mut registry = registry();
    let conn = ConnectionId::new(1);
    let delivery = Arc::new(NullDelivery);
    registry.add(SubscriptionId::new(1), conn, pattern("a"), None, None, delivery.clone());
    registry.add(SubscriptionId::new(2), conn, pattern("b"), None, None, delivery);
    let removed = registry.remove_all_for_connection(conn);
    assert_eq!(removed.len(), 2);
    assert_eq!(registry.count(), 0);
}

#[test]
fn get_by_connection() {
    let mut registry = registry();
    let conn = ConnectionId::new(1);
    let delivery = Arc::new(NullDelivery);
    registry.add(SubscriptionId::new(1), conn, pattern("a"), None, None, delivery.clone());
    registry.add(SubscriptionId::new(2), conn, pattern("b"), None, None, delivery);
    assert_eq!(registry.get_by_connection(conn).len(), 2);
}

#[test]
fn one_delivery_per_queue_group_wherever_members_stand() {
    let mut broker = BrokerCore::new();
    let a1 = FakeDelivery::new();
    let b1 = FakeDelivery::new();
    let a2 = FakeDelivery::new();
    let ga = QueueGroupName::new("A").unwrap();
    let gb = QueueGroupName::new("B").unwrap();
    broker.subscribe(ConnectionId::new(1), pattern("jobs"), Some(ga.clone()), a1.clone());
    broker.subscribe(ConnectionId::new(2), pattern("jobs"), Some(gb), b1.clone());
    broker.subscribe(ConnectionId::new(3), pattern("jobs"), Some(ga), a2.clone());
    broker.publish(Message::new(subject("jobs"), b"task".to_vec()));
    assert_eq!(a1.count() + a2.count(), 1);
    assert_eq!(b1.count(), 1);
    assert_eq!(broker.metrics().snapshot().messages_delivered, 2);
    broker.publish(Message::new(subject("jobs"), b"task".to_vec()));
    assert_eq!(a1.count(), 1);
    assert_eq!(a2.count(), 1);
    assert_eq!(b1.count(), 2);
}

#[test]
fn queue_group_and_plain_subscriber_both_receive() {
    let mut broker = BrokerCore::new();
    let q1 = FakeDelivery::new();
    let plain = FakeDelivery::new();
    let q2 = FakeDelivery::new();
    let g = QueueGroupName::new("w").unwrap();
    broker.subscribe(ConnectionId::new(1), pattern("jobs.*"), Some(g.clone()), q1.clone());
    broker.subscribe(ConnectionId::new(2), pattern("jobs.*"), None, plain.clone());
    broker.subscribe(ConnectionId::new(3), pattern("jobs.*"), Some(g), q2.clone());
    for _ in 0..4 {
        broker.publish(Message::new(subject("jobs.a"), b"t".to_vec()));
    }
    assert_eq!(plain.count(), 4);
    assert_eq!(q1.count(), 2);
    assert_eq!(q2.count(), 2);
    assert_eq!(broker.metrics().snapshot().messages_delivered, 8);
}

#[test]
fn trie_duplicate_entry_removed_leaves_empty() {
    let mut trie = SubjectTrie::new();
    let sub = SubscriptionId::new(1);
    trie.insert(&["a".into(), "*".into()], sub, false);
    trie.insert(&["a".into(), "*".into()], sub, false);
    assert!(!trie.is_empty());
    trie.remove(&["a".into(), "*".into()], sub, false);
    assert!(trie.is_empty());
    assert!(trie.match_subject(&Subject::parse("a.b").unwrap()).is_empty());
}

#[test]
fn each_subscriber_gets_its_own_copy() {
    let mut broker = BrokerCore::new();
    let d1 = FakeDelivery::new();
    let d2 = FakeDelivery::new();
    let s1 = broker.subscribe(ConnectionId::new(1), pattern("orders.*"), None, d1.clone());
    let s2 = broker.subscribe(ConnectionId::new(2), pattern("orders.>"), None, d2.clone());
    let mut msg = Message::new(subject("orders.new"), b"body".to_vec());
    msg.reply_to = Some(subject("inbox.1"));
    broker.publish(msg);
    let got1 = d1.delivered.lock().unwrap();
    let got2 = d2.delivered.lock().unwrap();
    assert_eq!(got1.len(), 1);
    assert_eq!(got2.len(), 1);
    assert_eq!(got1[0].subscription_id, s1);
    assert_eq!(got1[0].connection_id, ConnectionId::new(1));
    assert_eq!(got2[0].subscription_id, s2);
    assert_eq!(got1[0].payload, b"body".to_vec());
    assert_eq!(got2[0].subject, subject("orders.new"));
    assert_eq!(got2[0].reply_to, Some(subject("inbox.1")));
}

#[test]
fn trie_insert_then_remove_restores_match_order() {
    let mut trie = SubjectTrie::new();
    trie.insert(&["a".into(), "*".into()], SubscriptionId::new(1), false);
    trie.insert(&["a".into(), ">".into()], SubscriptionId::new(2), true);
    trie.insert(&["*".into(), "b".into()], SubscriptionId::new(3), false);
    let subj = Subject::parse("a.b").unwrap();
    let before = trie.match_subject(&subj);
    assert_eq!(before.len(), 3);
    trie.insert(&["a".into(), "*".into()], SubscriptionId::new(9), false);
    assert_eq!(trie.match_subject(&subj).len(), 4);
    trie.remove(&["a".into(), "*".into()], SubscriptionId::new(9), false);
    assert_eq!(trie.match_subject(&subj), before);
}

#[test]
fn routing_reaches_each_subscription_once() {
    let mut engine = RoutingEngine::new();
    engine.insert(&pattern("x.y"), SubscriptionId::new(1));
    engine.insert(&pattern("x.*"), SubscriptionId::new(2));
    engine.insert(&pattern("x.>"), SubscriptionId::new(3));
    engine.insert(&pattern(">"), SubscriptionId::new(4));
    let ids = engine.match_subject(&subject("x.y"));
    assert_eq!(ids.len(), 4);
    for i in 0..ids.len() {
        for j in 0..i {
            assert_ne!(ids.get(i), ids.get(j));
        }
    }
}

#[test]
fn match_result_holds_more_than_eight_in_order() {
    let mut engine = RoutingEngine::new();
    for i in 1..=10u64 {
        engine.insert(&pattern("many.*"), SubscriptionId::new(i));
    }
    let ids = engine.match_subject(&subject("many.x"));
    assert_eq!(ids.len(), 10);
    for i in 0..10usize {
        assert_eq!(ids.get(i), SubscriptionId::new(i as u64 + 1));
    }
    assert!(ids.contains(&SubscriptionId::new(10)));
    assert!(!ids.contains(&SubscriptionId::new(11)));
    let v = ids.into_vec();
    assert_eq!(v.len(), 10);
    let mut m = MatchResult::from_vec(v);
    m.push(SubscriptionId::new(42));
    assert_eq!(m.len(), 11);
    assert_eq!(m.get(10), SubscriptionId::new(42));
    assert!(!m.is_empty());
    assert!(MatchResult::new().is_empty());
}

struct StopsAfter {
    limit: usize,
    seen: Mutex<Vec<Vec<u8>>>,
}

impl DeliveryHandle for StopsAfter {
    fn deliver(&self, msg: DeliveryMessage) -> DeliveryStatus {
        let mut seen = self.seen.lock().unwrap();
        seen.push(msg.payload.clone());
        if seen.len() <= self.limit {
            DeliveryStatus::Delivered
        } else {
            DeliveryStatus::ChannelFull
        }
    }
}

fn delivery_message(payload: u8) -> DeliveryMessage {
    DeliveryMessage {
        subscription_id: SubscriptionId::new(1),
        connection_id: ConnectionId::new(1),
        subject: subject("s"),
        payload: vec![payload],
        reply_to: None,
        headers: None,
    }
}

#[test]
fn default_batch_stops_at_the_first_refusal() {
    let h = StopsAfter { limit: 2, seen: Mutex::new(Vec::new()) };
    let msgs: Vec<DeliveryMessage> = (1..=5u8).map(delivery_message).collect();
    assert_eq!(h.deliver_batch(msgs), 2);
    assert_eq!(*h.seen.lock().unwrap(), vec![vec![1u8], vec![2u8], vec![3u8]]);
    let all = StopsAfter { limit: 10, seen: Mutex::new(Vec::new()) };
    assert_eq!(all.deliver_batch((1..=4u8).map(delivery_message).collect()), 4);
    assert_eq!(all.seen.lock().unwrap().len(), 4);
    let none = StopsAfter { limit: 0, seen: Mutex::new(Vec::new()) };
    assert_eq!(none.deliver_batch(Vec::new()), 0);
    assert!(none.seen.lock().unwrap().is_empty());
}

#[test]
fn batch_step_counts_or_stops() {
    assert_eq!(batch_step(3, &DeliveryStatus::Delivered), Some(4));
    assert_eq!(batch_step(3, &DeliveryStatus::ChannelFull), None);
    assert_eq!(batch_step(0, &DeliveryStatus::Failed("x".into())), None);
}

#[test]
fn reparsing_a_subject_gives_the_same_subject() {
    let s = Subject::parse("  orders.created ").unwrap();
    assert_eq!(s.as_str(), "orders.created");
    assert_eq!(Subject::parse(s.as_str()).unwrap(), s);
    assert_eq!(s.to_string(), s.as_str());
}
