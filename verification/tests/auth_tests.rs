use zetmq::auth::AuthContext;
use zetmq::config::PermissionsConfig;
use zetmq::subject::Subject;
use zetmq::subject_pattern::SubjectPattern;

fn pattern(s: &str) -> SubjectPattern {
    SubjectPattern::parse(s).unwrap()
}

fn subject(s: &str) -> Subject {
    Subject::parse(s).unwrap()
}

fn ctx(publish: Vec<String>, subscribe: Vec<String>) -> AuthContext {
    AuthContext::from_permissions("user".into(), &PermissionsConfig { publish, subscribe }).unwrap()
}

#[test]
fn unrestricted_allows_everything() {
    let ctx = AuthContext::unrestricted();
    assert!(ctx.can_publish(&subject("any.thing")));
    assert!(ctx.can_subscribe(&pattern("any.>")));
}

#[test]
fn publish_matches_allowed_pattern() {
    let ctx = ctx(vec!["orders.>".into()], vec![]);
    assert!(ctx.can_publish(&subject("orders.created")));
    assert!(ctx.can_publish(&subject("orders.updated")));
    assert!(!ctx.can_publish(&subject("events.test")));
}

#[test]
fn subscribe_pattern_covered() {
    let ctx = ctx(vec![], vec!["orders.>".into()]);
    assert!(ctx.can_subscribe(&pattern("orders.*")));
    assert!(ctx.can_subscribe(&pattern("orders.created")));
    assert!(!ctx.can_subscribe(&pattern("events.>")));
}

#[test]
fn star_does_not_cover_multi_wildcard_or_multi_token() {
    let ctx = ctx(vec![], vec!["orders.*".into()]);
    assert!(ctx.can_subscribe(&pattern("orders.created")));
    assert!(ctx.can_subscribe(&pattern("orders.*")));
    assert!(!ctx.can_subscribe(&pattern("orders.>")));
    assert!(!ctx.can_subscribe(&pattern("orders.created.high")));
}

#[test]
fn full_wildcard_covers_all() {
    let ctx = AuthContext::from_permissions(
        "admin".into(),
        &PermissionsConfig { publish: vec![">".into()], subscribe: vec![">".into()] },
    )
    .unwrap();
    assert!(ctx.can_publish(&subject("anything")));
    assert!(ctx.can_subscribe(&pattern("everything.>")));
}

#[test]
fn invalid_permission_pattern_is_refused() {
    let r = AuthContext::from_permissions(
        "user".into(),
        &PermissionsConfig { publish: vec!["orders..x".into()], subscribe: vec![] },
    );
    assert!(r.is_err());
}

#[test]
fn invalid_permission_messages_name_the_pattern() {
    let r = AuthContext::from_permissions(
        "user".into(),
        &PermissionsConfig { publish: vec!["orders.*".into(), "orders..x".into(), "".into()], subscribe: vec!["".into()] },
    );
    match r {
        Err(m) => assert!(m.starts_with("invalid publish pattern 'orders..x': "), "{m}"),
        Ok(_) => panic!("expected a refusal"),
    }
    let r = AuthContext::from_permissions(
        "user".into(),
        &PermissionsConfig { publish: vec![">".into()], subscribe: vec!["a.b".into(), "a.>.b".into()] },
    );
    match r {
        Err(m) => assert!(m.starts_with("invalid subscribe pattern 'a.>.b': "), "{m}"),
        Ok(_) => panic!("expected a refusal"),
    }
}
