//! Handing messages to subscribers.

use vstd::prelude::*;

use crate::id::{ConnectionId, SubscriptionId};
use crate::message::HeaderMap;
use crate::subject::Subject;

verus! {

/// A message addressed to one subscription.
pub struct DeliveryMessage {
    pub subscription_id: SubscriptionId,
    pub connection_id: ConnectionId,
    pub subject: Subject,
    pub payload: Vec<u8>,
    pub reply_to: Option<Subject>,
    pub headers: Option<HeaderMap>,
}

/// The outcome of one delivery.
#[derive(Clone, Debug, PartialEq, Eq)]
pub enum DeliveryStatus {
    Delivered,
    ChannelFull,
    Failed(String),
}

/// One message of a batch: the number delivered so far after it, or none
/// when its status ends the batch.
pub fn batch_step(accepted: usize, status: &DeliveryStatus) -> (r: Option<usize>)
    requires
        accepted < usize::MAX,
    ensures
        r == (if *status is Delivered { Some((accepted + 1) as usize) } else { None::<usize> }),
{
    match status {
        DeliveryStatus::Delivered => Some(accepted + 1),
        _ => None,
    }
}

/// Where a subscription's messages go; the embedding application
/// implements it (a connection's outbound queue, for instance).
pub trait DeliveryHandle {
    /// Hands one message over.
    fn deliver(&self, msg: DeliveryMessage) -> DeliveryStatus;

    /// Hands messages over in order until one is not delivered; returns how
    /// many were delivered, which is at most how many were given (none for
    /// an empty batch). Done by `deliver`, message by message, unless a
    /// handle does it otherwise: then `deliver` was called on the first
    /// `min(r + 1, n)` messages, in order, each status is one `deliver` can
    /// give for its message, the first `r` were `Delivered`, and, when
    /// `r < n`, the next was not.
    fn deliver_batch(&self, msgs: Vec<DeliveryMessage>) -> (r: usize)
        ensures
            r <= msgs@.len(),
        default_ensures
            exists|st: Seq<DeliveryStatus>|
                {
                    &&& #[trigger] st.len() == (if r < msgs@.len() { r + 1 } else { r as int })
                    &&& forall|i: int| 0 <= i < st.len() ==> call_ensures(Self::deliver, (self, msgs@[i]), #[trigger] st[i])
                    &&& forall|i: int| 0 <= i < r ==> #[trigger] st[i] is Delivered
                    &&& r < msgs@.len() ==> !(st[r as int] is Delivered)
                },
    {
        let ghost all = msgs@;
        let n = msgs.len();
        let mut rest = msgs;
        let mut accepted: usize = 0;
        let ghost mut st: Seq<DeliveryStatus> = Seq::empty();
        while rest.len() > 0
            invariant
                all == msgs@,
                n == all.len(),
                accepted <= all.len(),
                rest@ == all.skip(accepted as int),
                st.len() == accepted,
                forall|i: int| 0 <= i < st.len() ==> call_ensures(Self::deliver, (self, all[i]), #[trigger] st[i]),
                forall|i: int| 0 <= i < accepted ==> #[trigger] st[i] is Delivered,
            decreases rest@.len(),
        {
            let msg = rest.remove(0);
            proof {
                assert(msg == all[accepted as int]);
                assert(rest@ =~= all.skip(accepted + 1));
            }
            let ghost m = msg;
            let status = self.deliver(msg);
            let ghost s0 = st;
            proof {
                st = st.push(status);
                assert forall|i: int| 0 <= i < st.len() implies call_ensures(Self::deliver, (self, all[i]), #[trigger] st[i]) by {
                    if i < s0.len() {
                        assert(st[i] == s0[i]);
                    }
                }
            }
            match batch_step(accepted, &status) {
                Some(a) => {
                    accepted = a;
                },
                None => {
                    proof {
                        assert(st.len() == accepted + 1);
                        assert(forall|i: int| 0 <= i < accepted ==> st[i] == s0[i]);
                    }
                    return accepted;
                },
            }
        }
        accepted
    }
}

} // verus!
