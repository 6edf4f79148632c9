use vstd::prelude::*;

verus! {

/// The kinds of failure of the lifecycle operations.
#[derive(Clone, Copy, Debug, PartialEq, Eq, Structural)]
pub enum LifecycleError {
    /// An identifier outside the state catalog was supplied.
    UnknownState,
    /// The referenced work-item does not exist.
    NotFound,
    /// The work-item exists but has no events.
    NoCurrentState,
    /// The requested move is not an edge of the transition policy.
    InvalidStateTransition,
    /// Another transition was committed since the caller read the latest event.
    Conflict,
    /// The store could not record the event.
    StorageError,
}

} // verus!
