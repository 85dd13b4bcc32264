//! Broker counters: connections, subscriptions, messages and errors.

use vstd::prelude::*;

verus! {

/// `x + n`, wrapping at the top of the range as atomic counters do.
pub open spec fn wrap_add(x: u64, n: u64) -> u64 {
    if x + n > u64::MAX {
        (x + n - u64::MAX - 1) as u64
    } else {
        (x + n) as u64
    }
}

/// `x - 1`, wrapping below zero as atomic counters do.
pub open spec fn wrap_dec(x: u64) -> u64 {
    if x == 0 {
        u64::MAX
    } else {
        (x - 1) as u64
    }
}

/// `x + n` for any count `n`, wrapping at the top of the range.
pub open spec fn wrap_n(x: u64, n: nat) -> u64 {
    ((x + n) % 0x1_0000_0000_0000_0000int) as u64
}

/// Adding one `u64` with wrapping is adding it as a count.
pub proof fn lemma_wrap_add_n(x: u64, n: u64)
    ensures
        wrap_add(x, n) == wrap_n(x, n as nat),
{
    if x + n > u64::MAX {
        vstd::arithmetic::div_mod::lemma_fundamental_div_mod(x + n, 0x1_0000_0000_0000_0000int);
        assert((x + n) / 0x1_0000_0000_0000_0000int == 1) by (nonlinear_arith)
            requires
                x + n > u64::MAX,
                x + n < 2 * 0x1_0000_0000_0000_0000int,
                x + n == 0x1_0000_0000_0000_0000int * ((x + n) / 0x1_0000_0000_0000_0000int) + (x + n)
                    % 0x1_0000_0000_0000_0000int,
                0 <= (x + n) % 0x1_0000_0000_0000_0000int < 0x1_0000_0000_0000_0000int,
        ;
    } else {
        vstd::arithmetic::div_mod::lemma_small_mod((x + n) as nat, 0x1_0000_0000_0000_0000nat);
    }
}

/// `x - n` for any count `n`, wrapping below zero.
pub open spec fn wrap_sub_n(x: u64, n: nat) -> u64 {
    ((x - n) % 0x1_0000_0000_0000_0000int) as u64
}

/// One more wrapping decrement.
pub proof fn lemma_wrap_sub_step(x: u64, n: nat)
    ensures
        wrap_dec(wrap_sub_n(x, n)) == wrap_sub_n(x, n + 1),
        wrap_sub_n(x, 0) == x,
{
    let m = 0x1_0000_0000_0000_0000int;
    vstd::arithmetic::div_mod::lemma_small_mod(x as nat, m as nat);
    let z = x - n;
    let q = z / m;
    let y = z % m;
    vstd::arithmetic::div_mod::lemma_fundamental_div_mod(z, m);
    vstd::arithmetic::div_mod::lemma_mod_bound(z, m);
    assert(z == q * m + y);
    if y > 0 {
        vstd::arithmetic::div_mod::lemma_fundamental_div_mod_converse(z - 1, m, q, y - 1);
    } else {
        assert(z - 1 == (q - 1) * m + (m - 1)) by (nonlinear_arith)
            requires
                z == q * m + y,
                y == 0,
        ;
        vstd::arithmetic::div_mod::lemma_fundamental_div_mod_converse(z - 1, m, q - 1, m - 1);
    }
}

/// Two wrapping additions are one.
pub proof fn lemma_wrap_n_compose(x: u64, a: nat, b: nat)
    ensures
        wrap_n(wrap_n(x, a), b) == wrap_n(x, a + b),
{
    let m = 0x1_0000_0000_0000_0000int;
    vstd::arithmetic::div_mod::lemma_add_mod_noop(x + a, b as int, m);
    vstd::arithmetic::div_mod::lemma_mod_twice(x + a, m);
    vstd::arithmetic::div_mod::lemma_add_mod_noop((x + a) % m, b as int, m);
}

/// Adding nothing changes nothing.
pub proof fn lemma_wrap_n_zero(x: u64)
    ensures
        wrap_n(x, 0) == x,
{
    vstd::arithmetic::div_mod::lemma_small_mod(x as nat, 0x1_0000_0000_0000_0000nat);
}

/// From `a` to `b`, `n` delivery outcomes were counted, each either as
/// delivered or as dropped, and no other counter moved.
pub open spec fn outcomes_recorded(a: CoreMetrics, b: CoreMetrics, n: nat) -> bool {
    &&& exists|d: nat, p: nat| #![trigger wrap_n(a.messages_delivered, d), wrap_n(a.messages_dropped, p)]
        d + p == n && b.messages_delivered == wrap_n(a.messages_delivered, d)
            && b.messages_dropped == wrap_n(a.messages_dropped, p)
    &&& b.active_connections == a.active_connections
    &&& b.total_connections == a.total_connections
    &&& b.active_subscriptions == a.active_subscriptions
    &&& b.messages_published == a.messages_published
    &&& b.protocol_errors == a.protocol_errors
}

/// How many of the outcomes are deliveries.
pub open spec fn trues(o: Seq<bool>) -> nat
    decreases o.len(),
{
    if o.len() == 0 {
        0
    } else {
        trues(o.drop_last()) + if o.last() { 1nat } else { 0nat }
    }
}

proof fn lemma_trues_concat(a: Seq<bool>, b: Seq<bool>)
    ensures
        trues(a + b) == trues(a) + trues(b),
        trues(b) <= b.len(),
    decreases b.len(),
{
    if b.len() == 0 {
        assert(a + b =~= a);
    } else {
        lemma_trues_concat(a, b.drop_last());
        assert((a + b).drop_last() =~= a + b.drop_last());
        assert((a + b).last() == b.last());
    }
}

/// The outcomes logged from `o0` to `o1` (`o1` goes on from `o0`) are the
/// counted ones: `messages_delivered` went from `a` to `b` by those
/// logged as delivered, `messages_dropped` by the others.
pub open spec fn logged_since(a: CoreMetrics, b: CoreMetrics, o0: Seq<bool>, o1: Seq<bool>) -> bool {
    let new = o1.skip(o0.len() as int);
    &&& o1.len() >= o0.len()
    &&& o1.take(o0.len() as int) == o0
    &&& b.messages_delivered == wrap_n(a.messages_delivered, trues(new))
    &&& b.messages_dropped == wrap_n(a.messages_dropped, (new.len() - trues(new)) as nat)
}

/// Nothing logged: nothing counted.
pub proof fn lemma_logged_none(a: CoreMetrics, o: Seq<bool>)
    ensures
        logged_since(a, a, o, o),
{
    assert(o.take(o.len() as int) =~= o);
    assert(o.skip(o.len() as int) =~= Seq::<bool>::empty());
    lemma_wrap_n_zero(a.messages_delivered);
    lemma_wrap_n_zero(a.messages_dropped);
}

/// Logging in two steps is logging at once.
pub proof fn lemma_logged_compose(a: CoreMetrics, b: CoreMetrics, c: CoreMetrics, o0: Seq<bool>, o1: Seq<bool>, o2: Seq<bool>)
    requires
        logged_since(a, b, o0, o1),
        logged_since(b, c, o1, o2),
    ensures
        logged_since(a, c, o0, o2),
{
    let n1 = o1.skip(o0.len() as int);
    let n2 = o2.skip(o1.len() as int);
    assert(o2.take(o0.len() as int) =~= o1.take(o0.len() as int)) by {
        assert forall|i: int| 0 <= i < o0.len() implies o2[i] == o1[i] by {
            assert(o2.take(o1.len() as int)[i] == o1[i]);
        }
    }
    assert(o2.skip(o0.len() as int) =~= n1 + n2) by {
        assert forall|i: int| 0 <= i < n1.len() implies o2[o0.len() + i] == n1[i] by {
            assert(o2.take(o1.len() as int)[o0.len() + i] == o1[o0.len() + i]);
        }
    }
    lemma_trues_concat(n1, n2);
    lemma_trues_concat(Seq::<bool>::empty(), n1);
    lemma_wrap_n_compose(a.messages_delivered, trues(n1), trues(n2));
    lemma_wrap_n_compose(a.messages_dropped, (n1.len() - trues(n1)) as nat, (n2.len() - trues(n2)) as nat);
}

/// Counting outcomes in two steps is counting them at once.
pub proof fn lemma_outcomes_compose(a: CoreMetrics, b: CoreMetrics, c: CoreMetrics, m: nat, n: nat)
    requires
        outcomes_recorded(a, b, m),
        outcomes_recorded(b, c, n),
    ensures
        outcomes_recorded(a, c, m + n),
{
    let (d1, p1) = choose|d: nat, p: nat| #![trigger wrap_n(a.messages_delivered, d), wrap_n(a.messages_dropped, p)]
        d + p == m && b.messages_delivered == wrap_n(a.messages_delivered, d)
            && b.messages_dropped == wrap_n(a.messages_dropped, p);
    let (d2, p2) = choose|d: nat, p: nat| #![trigger wrap_n(b.messages_delivered, d), wrap_n(b.messages_dropped, p)]
        d + p == n && c.messages_delivered == wrap_n(b.messages_delivered, d)
            && c.messages_dropped == wrap_n(b.messages_dropped, p);
    lemma_wrap_n_compose(a.messages_delivered, d1, d2);
    lemma_wrap_n_compose(a.messages_dropped, p1, p2);
    assert(d1 + d2 + p1 + p2 == m + n);
}

/// No outcome counted: nothing moved.
pub proof fn lemma_outcomes_none(a: CoreMetrics)
    ensures
        outcomes_recorded(a, a, 0),
{
    lemma_wrap_n_zero(a.messages_delivered);
    lemma_wrap_n_zero(a.messages_dropped);
}

/// A copy of the counters at one moment.
#[derive(Debug, Clone, PartialEq, Eq, Structural)]
pub struct MetricsSnapshot {
    pub active_connections: u64,
    pub total_connections: u64,
    pub active_subscriptions: u64,
    pub messages_published: u64,
    pub messages_delivered: u64,
    pub messages_dropped: u64,
    pub protocol_errors: u64,
}

/// The broker's counters.
#[derive(Debug, Default)]
pub struct CoreMetrics {
    pub active_connections: u64,
    pub total_connections: u64,
    pub active_subscriptions: u64,
    pub messages_published: u64,
    pub messages_delivered: u64,
    pub messages_dropped: u64,
    pub protocol_errors: u64,
}

/// The counters as a snapshot value.
pub open spec fn snapshot_of(m: CoreMetrics) -> MetricsSnapshot {
    MetricsSnapshot {
        active_connections: m.active_connections,
        total_connections: m.total_connections,
        active_subscriptions: m.active_subscriptions,
        messages_published: m.messages_published,
        messages_delivered: m.messages_delivered,
        messages_dropped: m.messages_dropped,
        protocol_errors: m.protocol_errors,
    }
}

/// Every counter at zero.
pub open spec fn zero_snapshot() -> MetricsSnapshot {
    MetricsSnapshot {
        active_connections: 0,
        total_connections: 0,
        active_subscriptions: 0,
        messages_published: 0,
        messages_delivered: 0,
        messages_dropped: 0,
        protocol_errors: 0,
    }
}

impl CoreMetrics {
    /// All counters at zero.
    pub fn new() -> (r: Self)
        ensures
            snapshot_of(r) == zero_snapshot(),
    {
        CoreMetrics {
            active_connections: 0,
            total_connections: 0,
            active_subscriptions: 0,
            messages_published: 0,
            messages_delivered: 0,
            messages_dropped: 0,
            protocol_errors: 0,
        }
    }

    /// A connection opened: counts it as active and in the total.
    pub fn inc_active_connections(&mut self)
        ensures
            snapshot_of(*final(self)) == (MetricsSnapshot {
                active_connections: wrap_add(old(self).active_connections, 1),
                total_connections: wrap_add(old(self).total_connections, 1),
                ..snapshot_of(*old(self))
            }),
    {
        self.active_connections = self.active_connections.wrapping_add(1);
        self.total_connections = self.total_connections.wrapping_add(1);
    }

    /// A connection closed.
    pub fn dec_active_connections(&mut self)
        ensures
            snapshot_of(*final(self)) == (MetricsSnapshot {
                active_connections: wrap_dec(old(self).active_connections),
                ..snapshot_of(*old(self))
            }),
    {
        self.active_connections = self.active_connections.wrapping_sub(1);
    }

    /// A subscription was added.
    pub fn inc_subscriptions(&mut self)
        ensures
            snapshot_of(*final(self)) == (MetricsSnapshot {
                active_subscriptions: wrap_add(old(self).active_subscriptions, 1),
                ..snapshot_of(*old(self))
            }),
    {
        self.active_subscriptions = self.active_subscriptions.wrapping_add(1);
    }

    /// A subscription was removed.
    pub fn dec_subscriptions(&mut self)
        ensures
            snapshot_of(*final(self)) == (MetricsSnapshot {
                active_subscriptions: wrap_dec(old(self).active_subscriptions),
                ..snapshot_of(*old(self))
            }),
    {
        self.active_subscriptions = self.active_subscriptions.wrapping_sub(1);
    }

    /// One message was published.
    pub fn inc_published(&mut self)
        ensures
            snapshot_of(*final(self)) == (MetricsSnapshot {
                messages_published: wrap_add(old(self).messages_published, 1),
                ..snapshot_of(*old(self))
            }),
    {
        self.messages_published = self.messages_published.wrapping_add(1);
    }

    /// `n` messages were published.
    pub fn inc_published_by(&mut self, n: u64)
        ensures
            snapshot_of(*final(self)) == (MetricsSnapshot {
                messages_published: wrap_add(old(self).messages_published, n),
                ..snapshot_of(*old(self))
            }),
    {
        self.messages_published = self.messages_published.wrapping_add(n);
    }

    /// One message was delivered.
    pub fn inc_delivered(&mut self)
        ensures
            snapshot_of(*final(self)) == (MetricsSnapshot {
                messages_delivered: wrap_add(old(self).messages_delivered, 1),
                ..snapshot_of(*old(self))
            }),
    {
        self.messages_delivered = self.messages_delivered.wrapping_add(1);
    }

    /// `n` messages were delivered.
    pub fn inc_delivered_by(&mut self, n: u64)
        ensures
            snapshot_of(*final(self)) == (MetricsSnapshot {
                messages_delivered: wrap_add(old(self).messages_delivered, n),
                ..snapshot_of(*old(self))
            }),
    {
        self.messages_delivered = self.messages_delivered.wrapping_add(n);
    }

    /// One message was dropped.
    pub fn inc_dropped(&mut self)
        ensures
            snapshot_of(*final(self)) == (MetricsSnapshot {
                messages_dropped: wrap_add(old(self).messages_dropped, 1),
                ..snapshot_of(*old(self))
            }),
    {
        self.messages_dropped = self.messages_dropped.wrapping_add(1);
    }

    /// `n` messages were dropped.
    pub fn inc_dropped_by(&mut self, n: u64)
        ensures
            snapshot_of(*final(self)) == (MetricsSnapshot {
                messages_dropped: wrap_add(old(self).messages_dropped, n),
                ..snapshot_of(*old(self))
            }),
    {
        self.messages_dropped = self.messages_dropped.wrapping_add(n);
    }

    /// One protocol error was seen.
    pub fn inc_protocol_errors(&mut self)
        ensures
            snapshot_of(*final(self)) == (MetricsSnapshot {
                protocol_errors: wrap_add(old(self).protocol_errors, 1),
                ..snapshot_of(*old(self))
            }),
    {
        self.protocol_errors = self.protocol_errors.wrapping_add(1);
    }

    /// The current values of all counters.
    pub fn snapshot(&self) -> (r: MetricsSnapshot)
        ensures
            r == snapshot_of(*self),
    {
        MetricsSnapshot {
            active_connections: self.active_connections,
            total_connections: self.total_connections,
            active_subscriptions: self.active_subscriptions,
            messages_published: self.messages_published,
            messages_delivered: self.messages_delivered,
            messages_dropped: self.messages_dropped,
            protocol_errors: self.protocol_errors,
        }
    }
}

} // verus!
