use vstd::prelude::*;

verus! {

/// Errors surfaced by the chat core.
///
/// `NotAMember` and the two connection errors report caller misuse and are
/// returned synchronously; `StorageUnavailable` reports that the roster of a
/// room is not authoritative (the persistence collaborator has not delivered
/// it, or failed to), so the operation should be retried by the caller with
/// backoff.
///
/// A recipient's queue overflowing is deliberately not here: it is never
/// surfaced to the publisher. The backpressure policy resolves it per
/// recipient, observable only through the lagging flag and drop counter.
#[derive(Clone, Copy, PartialEq, Eq, Structural, Debug)]
pub enum ChatError {
    /// Attach was attempted for an identity absent from the room's roster.
    NotAMember,
    /// The room's roster load is pending or has failed; retry after backoff.
    StorageUnavailable,
    /// The connection is draining: it no longer accepts new submissions.
    ConnectionClosing,
    /// The connection is closed or unknown to the room.
    ConnectionClosed,
}

} // verus!
