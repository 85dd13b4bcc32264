//! The registry of live subscriptions, kept in step with the routing engine.

use std::sync::Arc;

use vstd::prelude::*;

use crate::id::{ConnectionId, SubscriptionId};
use crate::queue_group::QueueGroupName;
use crate::routing::RoutingEngine;
use crate::subject_pattern::SubjectPattern;
use crate::subscription::{QueueGroupKey, Subscriber, Subscription, same_subscription};

verus! {

/// The routing entry of a subscription: its pattern text and id.
pub open spec fn pair_of<D>(s: Subscription<D>) -> (Seq<char>, SubscriptionId) {
    (s.pattern@.raw, s.id)
}

/// The routing entries of the subscriptions.
pub open spec fn pairs_of<D>(s: Seq<Subscription<D>>) -> Set<(Seq<char>, SubscriptionId)> {
    Set::new(|p: (Seq<char>, SubscriptionId)| exists|i: int| 0 <= i < s.len() && p == #[trigger] pair_of(s[i]))
}

/// No two subscriptions share an id.
pub open spec fn ids_unique<D>(s: Seq<Subscription<D>>) -> bool {
    forall|i: int, j: int| 0 <= i < s.len() && 0 <= j < s.len() && i != j ==> #[trigger] s[i].id != #[trigger] s[j].id
}

/// Some subscription has id `id`.
pub open spec fn has_id<D>(s: Seq<Subscription<D>>, id: SubscriptionId) -> bool {
    exists|i: int| 0 <= i < s.len() && #[trigger] s[i].id == id
}

/// The position of the subscription with id `id`.
pub open spec fn find_id<D>(s: Seq<Subscription<D>>, id: SubscriptionId) -> int {
    choose|i: int| 0 <= i < s.len() && #[trigger] s[i].id == id
}

/// The test "belongs to connection `c`".
pub open spec fn on_conn<D>(c: ConnectionId) -> spec_fn(Subscription<D>) -> bool {
    |s: Subscription<D>| s.connection_id == c
}

/// The test "does not belong to connection `c`".
pub open spec fn off_conn<D>(c: ConnectionId) -> spec_fn(Subscription<D>) -> bool {
    |s: Subscription<D>| s.connection_id != c
}

/// The ids of the subscriptions.
pub open spec fn sub_ids<D>(s: Seq<Subscription<D>>) -> Seq<SubscriptionId> {
    s.map_values(|x: Subscription<D>| x.id)
}

/// Keeps the subscriptions, in the order they were added, and the routing
/// engine that routes subjects to them.
pub struct SubscriptionRegistry<D> {
    subscriptions: Vec<Subscription<D>>,
    router: RoutingEngine,
}

proof fn lemma_pairs_push<D>(s: Seq<Subscription<D>>, x: Subscription<D>)
    ensures
        pairs_of(s.push(x)) == pairs_of(s).insert(pair_of(x)),
{
    let t = s.push(x);
    assert forall|p: (Seq<char>, SubscriptionId)| #[trigger] pairs_of(t).contains(p) == pairs_of(s).insert(pair_of(x)).contains(p) by {
        if pairs_of(t).contains(p) {
            let i = choose|i: int| 0 <= i < t.len() && p == #[trigger] pair_of(t[i]);
            if i < s.len() {
                assert(p == pair_of(s[i]));
            }
        }
        if pairs_of(s).contains(p) {
            let i = choose|i: int| 0 <= i < s.len() && p == #[trigger] pair_of(s[i]);
            assert(p == pair_of(t[i]));
        }
        if p == pair_of(x) {
            assert(p == pair_of(t[s.len() as int]));
        }
    }
    assert(pairs_of(t) =~= pairs_of(s).insert(pair_of(x)));
}

proof fn lemma_pairs_remove<D>(s: Seq<Subscription<D>>, i: int)
    requires
        0 <= i < s.len(),
        ids_unique(s),
    ensures
        pairs_of(s.remove(i)) == pairs_of(s).remove(pair_of(s[i])),
        ids_unique(s.remove(i)),
{
    let t = s.remove(i);
    assert forall|p: (Seq<char>, SubscriptionId)| #[trigger] pairs_of(t).contains(p) == pairs_of(s).remove(pair_of(s[i])).contains(p) by {
        if pairs_of(t).contains(p) {
            let k = choose|k: int| 0 <= k < t.len() && p == #[trigger] pair_of(t[k]);
            if k < i {
                assert(t[k] == s[k]);
                assert(s[k].id != s[i].id);
            } else {
                assert(t[k] == s[k + 1]);
                assert(s[k + 1].id != s[i].id);
            }
        }
        if pairs_of(s).contains(p) && p != pair_of(s[i]) {
            let k = choose|k: int| 0 <= k < s.len() && p == #[trigger] pair_of(s[k]);
            if k < i {
                assert(p == pair_of(t[k]));
            } else {
                assert(k != i);
                assert(p == pair_of(t[k - 1]));
            }
        }
    }
    assert(pairs_of(t) =~= pairs_of(s).remove(pair_of(s[i])));
    assert forall|a: int, b: int| 0 <= a < t.len() && 0 <= b < t.len() && a != b implies #[trigger] t[a].id != #[trigger] t[b].id by {
        let a2 = if a < i { a } else { a + 1 };
        let b2 = if b < i { b } else { b + 1 };
        assert(t[a] == s[a2] && t[b] == s[b2]);
    }
}

impl<D> SubscriptionRegistry<D> {
    /// The subscriptions, in the order they were added.
    pub closed spec fn subs(&self) -> Seq<Subscription<D>> {
        self.subscriptions@
    }

    /// The routing engine.
    pub closed spec fn routes(&self) -> RoutingEngine {
        self.router
    }

    /// Ids are distinct, and the engine routes exactly the subscriptions held.
    pub closed spec fn wf(&self) -> bool {
        &&& self.router.wf()
        &&& self.router.ids_unique()
        &&& ids_unique(self.subscriptions@)
        &&& self.router.subscriptions() == pairs_of(self.subscriptions@)
    }

    /// What consistency gives: the engine is consistent, routes exactly
    /// the subscriptions held, and ids are distinct.
    pub proof fn lemma_wf(&self)
        requires
            self.wf(),
        ensures
            self.routes().wf(),
            self.routes().subscriptions() == pairs_of(self.subs()),
            ids_unique(self.subs()),
            self.routes().ids_unique(),
    {
    }

    /// A registry over `router`, which holds no subscriptions yet.
    pub fn new(router: RoutingEngine) -> (r: Self)
        requires
            router.wf(),
            router.subscriptions() == Set::<(Seq<char>, SubscriptionId)>::empty(),
        ensures
            r.wf(),
            r.subs() == Seq::<Subscription<D>>::empty(),
            r.routes() == router,
    {
        proof {
            crate::routing::lemma_empty_unique(&router);
        }
        let r = SubscriptionRegistry { subscriptions: Vec::new(), router };
        assert(pairs_of(r.subscriptions@) =~= Set::<(Seq<char>, SubscriptionId)>::empty());
        r
    }

    /// The routing engine.
    pub fn router(&self) -> (r: &RoutingEngine)
        requires
            self.wf(),
        ensures
            *r == self.routes(),
            r.wf(),
            r.subscriptions() == pairs_of(self.subs()),
    {
        &self.router
    }

    /// Adds a subscription under a fresh id and routes its pattern to it.
    pub fn add(
        &mut self,
        id: SubscriptionId,
        connection_id: ConnectionId,
        pattern: SubjectPattern,
        queue_group: Option<QueueGroupName>,
        queue_group_key: Option<QueueGroupKey>,
        delivery: Arc<D>,
    )
        requires
            old(self).wf(),
            !has_id(old(self).subs(), id),
            old(self).routes().trie_count() < usize::MAX,
        ensures
            final(self).wf(),
            final(self).subs().drop_last() == old(self).subs(),
            final(self).subs().len() == old(self).subs().len() + 1,
            final(self).subs().last() == (Subscription {
                id,
                connection_id,
                pattern,
                queue_group,
                queue_group_key,
                delivery,
            }),
            final(self).routes().subscriptions() == old(self).routes().subscriptions().insert(
                (pattern@.raw, id),
            ),
            final(self).routes().trie_count() <= old(self).routes().trie_count() + 1,
    {
        proof {
            assert forall|r: Seq<char>| !#[trigger] self.router.subscriptions().contains((r, id)) by {
                if self.router.subscriptions().contains((r, id)) {
                    let i = choose|i: int| 0 <= i < self.subscriptions@.len() && (r, id) == #[trigger] pair_of(self.subscriptions@[i]);
                    assert(self.subscriptions@[i].id == id);
                }
            }
        }
        self.router.insert(&pattern, id);
        let sub = Subscription { id, connection_id, pattern, queue_group, queue_group_key, delivery };
        let ghost before = self.subscriptions@;
        self.subscriptions.push(sub);
        proof {
            lemma_pairs_push(before, sub);
            let s = self.subscriptions@;
            assert forall|i: int, j: int| 0 <= i < s.len() && 0 <= j < s.len() && i != j implies #[trigger] s[i].id != #[trigger] s[j].id by {
                if i < before.len() && j < before.len() {
                    assert(s[i] == before[i] && s[j] == before[j]);
                } else if i < before.len() {
                    assert(s[i] == before[i]);
                } else if j < before.len() {
                    assert(s[j] == before[j]);
                }
            }
            assert(s.drop_last() =~= before);
        }
    }

    /// Removes the subscription with id `sub_id` and its route; returns it,
    /// or nothing when no subscription has that id.
    pub fn remove(&mut self, sub_id: SubscriptionId) -> (r: Option<Subscription<D>>)
        requires
            old(self).wf(),
        ensures
            final(self).wf(),
            final(self).routes().trie_count() <= old(self).routes().trie_count(),
            match r {
                Some(s) => {
                    let i = find_id(old(self).subs(), sub_id);
                    &&& has_id(old(self).subs(), sub_id)
                    &&& 0 <= i < old(self).subs().len()
                    &&& old(self).subs()[i].id == sub_id
                    &&& s == old(self).subs()[i]
                    &&& final(self).subs() == old(self).subs().remove(i)
                },
                None => !has_id(old(self).subs(), sub_id) && final(self).subs() == old(self).subs()
                    && final(self).routes() == old(self).routes(),
            },
    {
        let mut i: usize = 0;
        while i < self.subscriptions.len()
            invariant
                i <= self.subscriptions@.len(),
                forall|k: int| 0 <= k < i ==> #[trigger] self.subscriptions@[k].id != sub_id,
                self.wf(),
                *self == *old(self),
            decreases self.subscriptions@.len() - i,
        {
            if self.subscriptions[i].id == sub_id {
                let ghost before = self.subscriptions@;
                proof {
                    assert(has_id(before, sub_id));
                    let j = find_id(before, sub_id);
                    if j != i {
                        assert(before[j].id != before[i as int].id);
                    }
                    lemma_pairs_remove(before, i as int);
                }
                let sub = self.subscriptions.remove(i);
                self.router.remove(&sub.pattern, sub_id);
                return Some(sub);
            }
            i = i + 1;
        }
        None
    }

    /// Removes every subscription of the connection and their routes;
    /// returns them in the order they were added.
    pub fn remove_all_for_connection(&mut self, connection_id: ConnectionId) -> (r: Vec<Subscription<D>>)
        requires
            old(self).wf(),
        ensures
            final(self).wf(),
            final(self).routes().trie_count() <= old(self).routes().trie_count(),
            r@ == old(self).subs().filter(on_conn(connection_id)),
            final(self).subs() == old(self).subs().filter(off_conn(connection_id)),
    {
        let ghost all = self.subscriptions@;
        let mut rest: Vec<Subscription<D>> = Vec::new();
        std::mem::swap(&mut rest, &mut self.subscriptions);
        let mut kept: Vec<Subscription<D>> = Vec::new();
        let mut removed: Vec<Subscription<D>> = Vec::new();
        let ghost mut k: int = 0;
        let ghost start_count = self.router.trie_count();
        while rest.len() > 0
            invariant
                0 <= k <= all.len(),
                rest@ == all.subrange(k, all.len() as int),
                kept@ == all.take(k).filter(off_conn(connection_id)),
                removed@ == all.take(k).filter(on_conn(connection_id)),
                ids_unique(all),
                ids_unique(kept@ + rest@),
                self.router.wf(),
                self.router.ids_unique(),
                self.router.subscriptions() == pairs_of(kept@ + rest@),
                self.router.trie_count() <= start_count,
            decreases rest@.len(),
        {
            let ghost cur = kept@ + rest@;
            let sub = rest.remove(0);
            proof {
                reveal(Seq::filter);
                assert(all.take(k + 1).drop_last() =~= all.take(k));
                assert(all.take(k + 1).last() == all[k]);
                assert(sub == all[k]);
                assert(rest@ =~= all.subrange(k + 1, all.len() as int));
            }
            if sub.connection_id == connection_id {
                proof {
                    lemma_pairs_remove(cur, kept@.len() as int);
                    assert(cur.remove(kept@.len() as int) =~= kept@ + rest@);
                    assert(cur[kept@.len() as int] == sub);
                }
                self.router.remove(&sub.pattern, sub.id);
                removed.push(sub);
            } else {
                proof {
                    assert(cur =~= kept@.push(sub) + rest@);
                }
                kept.push(sub);
            }
            proof {
                k = k + 1;
            }
        }
        proof {
            assert(all.take(k) =~= all);
            assert(kept@ + rest@ =~= kept@);
        }
        self.subscriptions = kept;
        removed
    }

    /// A copy of the subscription with id `sub_id`, if any.
    pub fn get(&self, sub_id: SubscriptionId) -> (r: Option<Subscription<D>>)
        requires
            self.wf(),
        ensures
            match r {
                Some(s) => has_id(self.subs(), sub_id) && same_subscription(
                    s,
                    self.subs()[find_id(self.subs(), sub_id)],
                ) && s.delivery == self.subs()[find_id(self.subs(), sub_id)].delivery,
                None => !has_id(self.subs(), sub_id),
            },
    {
        match self.position(sub_id) {
            Some(i) => Some(self.subscriptions[i].copy()),
            None => None,
        }
    }

    /// The position of the subscription with id `sub_id`, if any.
    pub fn position(&self, sub_id: SubscriptionId) -> (r: Option<usize>)
        requires
            self.wf(),
        ensures
            match r {
                Some(i) => has_id(self.subs(), sub_id) && i == find_id(self.subs(), sub_id)
                    && i < self.subs().len() && self.subs()[i as int].id == sub_id,
                None => !has_id(self.subs(), sub_id),
            },
    {
        let mut i: usize = 0;
        while i < self.subscriptions.len()
            invariant
                i <= self.subscriptions@.len(),
                forall|k: int| 0 <= k < i ==> #[trigger] self.subscriptions@[k].id != sub_id,
                self.wf(),
            decreases self.subscriptions@.len() - i,
        {
            if self.subscriptions[i].id == sub_id {
                proof {
                    let s = self.subscriptions@;
                    assert(has_id(s, sub_id));
                    let j = find_id(s, sub_id);
                    if j != i {
                        assert(s[j].id != s[i as int].id);
                    }
                }
                return Some(i);
            }
            i = i + 1;
        }
        None
    }

    /// The subscription at position `i`.
    pub fn at(&self, i: usize) -> (r: &Subscription<D>)
        requires
            i < self.subs().len(),
        ensures
            *r == self.subs()[i as int],
    {
        &self.subscriptions[i]
    }

    /// The delivery target of the subscription with id `sub_id`, if any.
    pub fn get_subscriber(&self, sub_id: SubscriptionId) -> (r: Option<Subscriber<D>>)
        requires
            self.wf(),
        ensures
            match r {
                Some(t) => has_id(self.subs(), sub_id) && t.subscription_id == sub_id
                    && t.connection_id == self.subs()[find_id(self.subs(), sub_id)].connection_id
                    && t.delivery == self.subs()[find_id(self.subs(), sub_id)].delivery,
                None => !has_id(self.subs(), sub_id),
            },
    {
        match self.position(sub_id) {
            Some(i) => {
                let s = &self.subscriptions[i];
                Some(Subscriber::new(s.connection_id, s.id, s.delivery.clone()))
            },
            None => None,
        }
    }

    /// The ids of the connection's subscriptions, in the order they were added.
    pub fn get_by_connection(&self, connection_id: ConnectionId) -> (r: Vec<SubscriptionId>)
        ensures
            r@ == sub_ids(self.subs().filter(on_conn(connection_id))),
    {
        let mut r: Vec<SubscriptionId> = Vec::new();
        let mut i: usize = 0;
        while i < self.subscriptions.len()
            invariant
                i <= self.subscriptions@.len(),
                r@ == sub_ids(self.subscriptions@.take(i as int).filter(on_conn(connection_id))),
            decreases self.subscriptions@.len() - i,
        {
            proof {
                reveal(Seq::filter);
                let s = self.subscriptions@;
                assert(s.take(i + 1).drop_last() =~= s.take(i as int));
                assert(s.take(i + 1).last() == s[i as int]);
            }
            if self.subscriptions[i].connection_id == connection_id {
                r.push(self.subscriptions[i].id);
            }
            proof {
                let s = self.subscriptions@;
                let f = s.take(i + 1).filter(on_conn(connection_id));
                assert(sub_ids(f) =~= r@);
            }
            i = i + 1;
        }
        proof {
            assert(self.subscriptions@.take(i as int) =~= self.subscriptions@);
        }
        r
    }

    /// The number of subscriptions.
    pub fn count(&self) -> (r: usize)
        ensures
            r == self.subs().len(),
    {
        self.subscriptions.len()
    }

    /// The number of the connection's subscriptions.
    pub fn count_for_connection(&self, connection_id: ConnectionId) -> (r: usize)
        ensures
            r == self.subs().filter(on_conn(connection_id)).len(),
    {
        let ids = self.get_by_connection(connection_id);
        ids.len()
    }
}

} // verus!
