//! Queue group names: subscribers sharing a name receive messages in turn.

use vstd::prelude::*;
use vstd::utf8::*;

use crate::error::CoreError;
use crate::text::{chars_of, trim, trim_str};

verus! {

/// The longest queue group name accepted, in bytes.
pub const MAX_QUEUE_GROUP_NAME: usize = 128;

/// The name of a queue group, trimmed, non-empty and at most 128 bytes long.
#[derive(Debug, PartialEq, Eq, Hash)]
pub struct QueueGroupName(String);

impl View for QueueGroupName {
    type V = Seq<char>;

    closed spec fn view(&self) -> Seq<char> {
        self.0@
    }
}

/// The (already trimmed) text `t` is a valid queue group name.
pub open spec fn valid_group_name(t: Seq<char>) -> bool {
    t.len() > 0 && encode_utf8(t).len() <= MAX_QUEUE_GROUP_NAME
}

impl Clone for QueueGroupName {
    fn clone(&self) -> (r: Self)
        ensures
            r@ == self@,
    {
        proof {
            use_type_invariant(self);
        }
        QueueGroupName(self.0.clone())
    }
}

impl QueueGroupName {
    #[verifier::type_invariant]
    closed spec fn inv(self) -> bool {
        valid_group_name(self.0@)
    }

    /// Validates a queue group name: surrounding whitespace is trimmed and
    /// the rest must be non-empty and at most 128 bytes long.
    pub fn new(name: &str) -> (r: Result<QueueGroupName, CoreError>)
        ensures
            match r {
                Ok(q) => valid_group_name(trim(name@)) && q@ == trim(name@),
                Err(CoreError::InvalidQueueGroupName(_)) => !valid_group_name(trim(name@)),
                Err(_) => false,
            },
    {
        let trimmed = trim_str(name);
        let chars = chars_of(trimmed);
        if chars.len() == 0 {
            return Err(
                CoreError::InvalidQueueGroupName("queue group name cannot be empty".to_owned()),
            );
        }
        if trimmed.as_bytes().len() > MAX_QUEUE_GROUP_NAME {
            return Err(
                CoreError::InvalidQueueGroupName("name exceeds max length".to_owned()),
            );
        }
        Ok(QueueGroupName(trimmed.to_owned()))
    }

    /// The name's text.
    pub fn as_str(&self) -> (r: &str)
        ensures
            r@ == self@,
            valid_group_name(self@),
    {
        proof {
            use_type_invariant(self);
        }
        self.0.as_str()
    }

    /// The name's text, as `Display` writes it.
    pub fn to_string(&self) -> (r: String)
        ensures
            r@ == self@,
    {
        self.0.clone()
    }
}

} // verus!
