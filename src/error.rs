//! Errors of the session engine.
use vstd::prelude::*;

verus! {

/// Why a message could not be queued for sending.
#[derive(Clone, Copy, Debug, PartialEq, Eq, Structural)]
pub enum SendError {
    /// The message would need more than 128 fragments.
    TooManyFragments,
    /// The lane index is not one of the configured outgoing lanes.
    InvalidLaneIndex,
    /// A message of an unreliable lane does not fit in the send buffer
    /// budget even after evicting every buffered message of unreliable
    /// lanes; it is dropped.
    OutOfMemoryUnreliable,
    /// The send buffer budget is exceeded on a reliable lane: the session
    /// cannot continue.
    OutOfMemoryReliable,
    /// The session stopped earlier on this error.
    Fatal(SessionFatal),
}

/// Why (part of) an incoming packet was rejected.
#[derive(Clone, Copy, Debug, PartialEq, Eq, Structural)]
pub enum RecvError {
    /// The packet ended in the middle of a field.
    ShortRead,
    /// A variable-length integer was malformed or too large.
    BadVarint,
    /// A fragment named a lane that is not configured.
    InvalidLaneIndex,
    /// A fragment index lies past the known fragment count of its message.
    InvalidFragIndex,
    /// A fragment payload has the wrong size for its position.
    InvalidFragSize,
    /// A last fragment disagrees with what was already seen of its message.
    InconsistentLastFragment,
}

/// Errors after which the session cannot go on.
#[derive(Clone, Copy, Debug, PartialEq, Eq, Structural)]
pub enum SessionFatal {
    /// A reliable lane's send buffer exceeded its budget.
    OutOfMemoryReliable,
    /// The packet size is too small for the configured fragment payload.
    MtuTooSmall,
}

} // verus!
