//! Subscriptions and the delivery targets behind them.

use std::sync::Arc;

use vstd::prelude::*;

use crate::id::{ConnectionId, SubscriptionId};
use crate::queue_group::QueueGroupName;
use crate::subject_pattern::SubjectPattern;

verus! {

/// Identifies a queue group: the pattern text and the group's name.
pub type QueueGroupKey = (String, String);

/// The text of a queue group key.
pub open spec fn key_view(k: Option<QueueGroupKey>) -> Option<(Seq<char>, Seq<char>)> {
    match k {
        Some(p) => Some((p.0@, p.1@)),
        None => None,
    }
}

/// A copy of a queue group key.
pub fn clone_key(k: &QueueGroupKey) -> (r: QueueGroupKey)
    ensures
        r.0@ == k.0@,
        r.1@ == k.1@,
{
    (k.0.clone(), k.1.clone())
}

/// A subscription: who subscribed, to what, in which queue group, and where
/// its messages go.
pub struct Subscription<D> {
    pub id: SubscriptionId,
    pub connection_id: ConnectionId,
    pub pattern: SubjectPattern,
    pub queue_group: Option<QueueGroupName>,
    pub queue_group_key: Option<QueueGroupKey>,
    pub delivery: Arc<D>,
}

/// Two subscriptions agree on everything but the identity of their copies.
pub open spec fn same_subscription<D>(a: Subscription<D>, b: Subscription<D>) -> bool {
    &&& a.id == b.id
    &&& a.connection_id == b.connection_id
    &&& a.pattern@ == b.pattern@
    &&& a.queue_group.is_some() == b.queue_group.is_some()
    &&& (a.queue_group.is_some() ==> a.queue_group.unwrap()@ == b.queue_group.unwrap()@)
    &&& key_view(a.queue_group_key) == key_view(b.queue_group_key)
}

impl<D> Subscription<D> {
    /// A subscription with the given parts.
    pub fn new(
        id: SubscriptionId,
        connection_id: ConnectionId,
        pattern: SubjectPattern,
        queue_group: Option<QueueGroupName>,
        queue_group_key: Option<QueueGroupKey>,
        delivery: Arc<D>,
    ) -> (r: Self)
        ensures
            r.id == id,
            r.connection_id == connection_id,
            r.pattern == pattern,
            r.queue_group == queue_group,
            r.queue_group_key == queue_group_key,
            r.delivery == delivery,
    {
        Subscription { id, connection_id, pattern, queue_group, queue_group_key, delivery }
    }

    /// A copy of the subscription, sharing its delivery target.
    pub fn copy(&self) -> (r: Self)
        ensures
            same_subscription(r, *self),
            r.delivery == self.delivery,
    {
        let queue_group = match &self.queue_group {
            Some(q) => Some(q.clone()),
            None => None,
        };
        let queue_group_key = match &self.queue_group_key {
            Some(k) => Some(clone_key(k)),
            None => None,
        };
        Subscription {
            id: self.id,
            connection_id: self.connection_id,
            pattern: self.pattern.clone(),
            queue_group,
            queue_group_key,
            delivery: self.delivery.clone(),
        }
    }
}

/// A delivery target of one subscription.
pub struct Subscriber<D> {
    pub connection_id: ConnectionId,
    pub subscription_id: SubscriptionId,
    pub delivery: Arc<D>,
}

impl<D> Subscriber<D> {
    /// The target of subscription `subscription_id` on `connection_id`.
    pub fn new(connection_id: ConnectionId, subscription_id: SubscriptionId, delivery: Arc<D>) -> (r: Self)
        ensures
            r.connection_id == connection_id,
            r.subscription_id == subscription_id,
            r.delivery == delivery,
    {
        Subscriber { connection_id, subscription_id, delivery }
    }
}

} // verus!
