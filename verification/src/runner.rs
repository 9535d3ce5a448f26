//! Decisions of the frame fan-out from the simulation to its consumers.
use vstd::prelude::*;

verus! {

/// What the fan-out does with one consumer's queue for the current frame.
#[derive(PartialEq, Eq, Structural, Debug, Clone, Copy)]
pub enum Delivery {
    /// The consumer is gone: remove its queue.
    Drop,
    /// The queue is full: yield and look again.
    Wait,
    /// Push the frame into the queue.
    Push,
}

/// Decides how a frame is delivered to a consumer from the state of its
/// queue: an abandoned queue is removed whether or not it is full, a full
/// queue is waited on, and any other queue receives the frame.
pub fn delivery(is_full: bool, is_abandoned: bool) -> (d: Delivery)
    ensures
        d == (if is_abandoned {
            Delivery::Drop
        } else if is_full {
            Delivery::Wait
        } else {
            Delivery::Push
        }),
{
    if is_full {
        if is_abandoned {
            Delivery::Drop
        } else {
            Delivery::Wait
        }
    } else if is_abandoned {
        Delivery::Drop
    } else {
        Delivery::Push
    }
}

} // verus!
