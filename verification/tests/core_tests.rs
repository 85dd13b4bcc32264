use zetmq::id::{ConnectionId, IdGenerator, SubscriptionId};
use zetmq::queue_group::QueueGroupName;
use zetmq::subject::Subject;
use zetmq::subject_pattern::SubjectPattern;

fn subject(s: &str) -> Subject {
    Subject::parse(s).unwrap()
}

fn pattern(s: &str) -> SubjectPattern {
    SubjectPattern::parse(s).unwrap()
}

#[test]
fn connection_id_create_and_compare() {
    let a = ConnectionId::new(1);
    let b = ConnectionId::new(2);
    let c = ConnectionId::new(1);
    assert_eq!(a, c);
    assert_ne!(a, b);
}

#[test]
fn ids_as_hashmap_keys() {
    let mut conns: std::collections::HashMap<ConnectionId, &str> = std::collections::HashMap::new();
    let mut subs: std::collections::HashMap<SubscriptionId, &str> = std::collections::HashMap::new();
    conns.insert(ConnectionId::new(1), "conn-1");
    subs.insert(SubscriptionId::new(1), "sub-1");
    assert_eq!(conns.get(&ConnectionId::new(1)), Some(&"conn-1"));
    assert_eq!(subs.get(&SubscriptionId::new(1)), Some(&"sub-1"));
}

#[test]
fn id_generator_sequential() {
    let mut gen = IdGenerator::new(100);
    assert_eq!(gen.next(), 100);
    assert_eq!(gen.next(), 101);
    assert_eq!(gen.next(), 102);
}

#[test]
fn id_display_format() {
    let id = ConnectionId::new(42);
    assert_eq!(id.to_string(), "ConnectionId(42)");
}

#[test]
fn valid_name() {
    let name = QueueGroupName::new("workers").unwrap();
    assert_eq!(name.as_str(), "workers");
}

#[test]
fn queue_group_reject_empty() {
    assert!(QueueGroupName::new("").is_err());
    assert!(QueueGroupName::new("   ").is_err());
}

#[test]
fn valid_simple_subject() {
    let s = Subject::parse("orders.created").unwrap();
    assert_eq!(s.as_str(), "orders.created");
    assert_eq!(s.tokens(), &["orders", "created"]);
}

#[test]
fn valid_multi_token_subject() {
    let s = Subject::parse("metrics.cpu.host01").unwrap();
    assert_eq!(s.token_count(), 3);
}

#[test]
fn subject_reject_empty() {
    assert!(Subject::parse("").is_err());
    assert!(Subject::parse("   ").is_err());
}

#[test]
fn subject_reject_empty_token() {
    assert!(Subject::parse("orders..created").is_err());
}

#[test]
fn reject_leading_dot() {
    assert!(Subject::parse(".orders").is_err());
}

#[test]
fn reject_trailing_dot() {
    assert!(Subject::parse("orders.").is_err());
}

#[test]
fn reject_wildcard_star() {
    assert!(Subject::parse("orders.*").is_err());
}

#[test]
fn reject_wildcard_gt() {
    assert!(Subject::parse("orders.>").is_err());
}

#[test]
fn subject_equality() {
    let a = Subject::parse("orders.created").unwrap();
    let b = Subject::parse("orders.created").unwrap();
    assert_eq!(a, b);
}

#[test]
fn valid_exact_pattern() {
    let p = pattern("orders.created");
    assert_eq!(p.as_str(), "orders.created");
}

#[test]
fn valid_single_wildcard() {
    let p = pattern("orders.*");
    assert_eq!(p.tokens().len(), 2);
}

#[test]
fn valid_multi_wildcard() {
    let p = pattern("orders.>");
    assert_eq!(p.tokens().len(), 2);
}

#[test]
fn subject_pattern_reject_empty() {
    assert!(SubjectPattern::parse("").is_err());
}

#[test]
fn subject_pattern_reject_empty_token() {
    assert!(SubjectPattern::parse("orders..created").is_err());
}

#[test]
fn reject_gt_in_middle() {
    assert!(SubjectPattern::parse("orders.>.created").is_err());
}

#[test]
fn exact_match() {
    assert!(pattern("orders.created").matches(&subject("orders.created")));
}

#[test]
fn exact_no_match() {
    assert!(!pattern("orders.created").matches(&subject("orders.cancelled")));
}

#[test]
fn star_matches_one_token() {
    let p = pattern("orders.*");
    assert!(p.matches(&subject("orders.created")));
    assert!(p.matches(&subject("orders.cancelled")));
}

#[test]
fn star_no_match_multiple() {
    assert!(!pattern("orders.*").matches(&subject("orders.created.high")));
}

#[test]
fn star_no_match_zero() {
    assert!(!pattern("orders.*").matches(&subject("orders")));
}

#[test]
fn gt_matches_one_token() {
    assert!(pattern("orders.>").matches(&subject("orders.created")));
}

#[test]
fn gt_matches_multiple() {
    assert!(pattern("orders.>").matches(&subject("orders.created.high_priority")));
}

#[test]
fn gt_no_match_base() {
    assert!(!pattern("orders.>").matches(&subject("orders")));
}

#[test]
fn star_at_start() {
    let p = pattern("*.created");
    assert!(p.matches(&subject("orders.created")));
    assert!(p.matches(&subject("users.created")));
}

#[test]
fn star_in_middle() {
    let p = pattern("metrics.*.host01");
    assert!(p.matches(&subject("metrics.cpu.host01")));
    assert!(!p.matches(&subject("metrics.cpu")));
}
