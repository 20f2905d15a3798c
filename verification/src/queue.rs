//! The bounded request queue's contract with its submitters: the capacity,
//! and how a try-send outcome is reported to the producing connection.

use vstd::prelude::*;

verus! {

/// Capacity of the bounded request queue: the only buffer between the
/// connections and the persistence worker.
pub const QUEUE_CAPACITY: usize = 100;

/// What submitting a produce came to.
#[derive(Clone, Copy, Debug, PartialEq, Eq, Structural)]
pub enum EnqueueResult {
    /// The request is queued under this id; the commit signal will say when
    /// it is durable.
    Enqueued(u64),
    /// The queue is at capacity: the producer is told to back off.
    Full,
    /// The worker is gone; no produce can be accepted.
    Closed,
}

/// What the channel's non-blocking send reported.
#[derive(Clone, Copy, Debug, PartialEq, Eq, Structural)]
pub enum SendOutcome {
    Sent,
    Full,
    Closed,
}

/// How a try-send outcome is reported for the produce that drew `id`: a
/// send that went through is `Enqueued(id)`; a full queue and a closed queue
/// are reported as themselves, never queued elsewhere and never retried
/// here.
pub fn classify_send(outcome: SendOutcome, id: u64) -> (r: EnqueueResult)
    ensures
        r == match outcome {
            SendOutcome::Sent => EnqueueResult::Enqueued(id),
            SendOutcome::Full => EnqueueResult::Full,
            SendOutcome::Closed => EnqueueResult::Closed,
        },
{
    match outcome {
        SendOutcome::Sent => EnqueueResult::Enqueued(id),
        SendOutcome::Full => EnqueueResult::Full,
        SendOutcome::Closed => EnqueueResult::Closed,
    }
}

} // verus!
