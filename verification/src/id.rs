//! Identifiers of connections, subscriptions, messages and queue groups,
//! and a generator of consecutive identifiers.

use vstd::prelude::*;

use crate::text::{decimal, decimal_chars, push_str_chars, string_of};

verus! {

/// Identifies a client connection.
#[derive(Clone, Copy, Debug, PartialEq, Eq, Hash, PartialOrd, Ord, Structural)]
pub struct ConnectionId(pub u64);

/// Identifies a subscription.
#[derive(Clone, Copy, Debug, PartialEq, Eq, Hash, PartialOrd, Ord, Structural)]
pub struct SubscriptionId(pub u64);

/// Identifies a message.
#[derive(Clone, Copy, Debug, PartialEq, Eq, Hash, PartialOrd, Ord, Structural)]
pub struct MessageId(pub u64);

/// Identifies a queue group.
#[derive(Clone, Copy, Debug, PartialEq, Eq, Hash, PartialOrd, Ord, Structural)]
pub struct QueueGroupId(pub u64);

/// `name(n)`, the way the identifiers display themselves.
pub open spec fn id_text(name: Seq<char>, n: u64) -> Seq<char> {
    name + seq!['('] + decimal(n as nat) + seq![')']
}

/// Renders `name(n)`.
fn render_id(name: &str, n: u64) -> (r: String)
    ensures
        r@ == id_text(name@, n),
{
    let mut out: Vec<char> = Vec::new();
    push_str_chars(&mut out, name);
    out.push('(');
    let digits = decimal_chars(n);
    let ghost before = out@;
    let mut i: usize = 0;
    while i < digits.len()
        invariant
            i <= digits@.len(),
            out@ == before + digits@.subrange(0, i as int),
        decreases digits@.len() - i,
    {
        out.push(digits[i]);
        i = i + 1;
        assert(digits@.subrange(0, i as int) == digits@.subrange(0, i - 1) + seq![digits@[i - 1]]);
    }
    assert(digits@.subrange(0, digits@.len() as int) == digits@);
    out.push(')');
    string_of(out.as_slice())
}

impl ConnectionId {
    /// The identifier with the given number.
    pub fn new(id: u64) -> (r: Self)
        ensures
            r.0 == id,
    {
        ConnectionId(id)
    }

    /// `ConnectionId(n)`, as `Display` writes it.
    pub fn to_string(&self) -> (r: String)
        ensures
            r@ == id_text("ConnectionId"@, self.0),
    {
        render_id("ConnectionId", self.0)
    }
}

impl SubscriptionId {
    /// The identifier with the given number.
    pub fn new(id: u64) -> (r: Self)
        ensures
            r.0 == id,
    {
        SubscriptionId(id)
    }

    /// `SubscriptionId(n)`, as `Display` writes it.
    pub fn to_string(&self) -> (r: String)
        ensures
            r@ == id_text("SubscriptionId"@, self.0),
    {
        render_id("SubscriptionId", self.0)
    }
}

impl MessageId {
    /// The identifier with the given number.
    pub fn new(id: u64) -> (r: Self)
        ensures
            r.0 == id,
    {
        MessageId(id)
    }

    /// `MessageId(n)`, as `Display` writes it.
    pub fn to_string(&self) -> (r: String)
        ensures
            r@ == id_text("MessageId"@, self.0),
    {
        render_id("MessageId", self.0)
    }
}

impl QueueGroupId {
    /// The identifier with the given number.
    pub fn new(id: u64) -> (r: Self)
        ensures
            r.0 == id,
    {
        QueueGroupId(id)
    }

    /// `QueueGroupId(n)`, as `Display` writes it.
    pub fn to_string(&self) -> (r: String)
        ensures
            r@ == id_text("QueueGroupId"@, self.0),
    {
        render_id("QueueGroupId", self.0)
    }
}

/// Hands out consecutive numbers, starting from a given one.
pub struct IdGenerator {
    counter: u64,
}

impl IdGenerator {
    /// The number that the next call of `next` returns.
    pub closed spec fn peek(&self) -> u64 {
        self.counter
    }

    /// A generator whose first number is `start`.
    pub fn new(start: u64) -> (r: Self)
        ensures
            r.peek() == start,
    {
        IdGenerator { counter: start }
    }

    /// The number that the next call of `next` returns.
    pub fn current(&self) -> (r: u64)
        ensures
            r == self.peek(),
    {
        self.counter
    }

    /// Returns the current number and advances by one (wrapping at the top
    /// of the range, as an atomic fetch-and-add does).
    pub fn next(&mut self) -> (r: u64)
        ensures
            r == old(self).peek(),
            final(self).peek() == (if old(self).peek() == u64::MAX {
                0
            } else {
                (old(self).peek() + 1) as u64
            }),
    {
        let r = self.counter;
        self.counter = self.counter.wrapping_add(1);
        r
    }
}

} // verus!
