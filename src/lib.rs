use vstd::prelude::*;

pub mod error;
pub mod event;
pub mod laws;
pub mod lifecycle;
pub mod projection;
pub mod state;
pub mod store;

verus! {

// Work-items move through a fixed production lifecycle. Every move is an
// immutable event; a work-item's current state is derived from its events.
//
// - `state`: the catalog of states, their storage ids, and the transition policy.
// - `event`: events and the checked conversion from stored rows.
// - `store`: an append-only event log and its invariant.
// - `projection`: the current state as a selection over events.
// - `lifecycle`: creation, transitions and deletion, the only writers of events.
// - `laws`: properties that hold across calls.

} // verus!
