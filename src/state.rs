use vstd::prelude::*;

use crate::error::LifecycleError;

verus! {

/// A stage of the production lifecycle.
#[derive(Clone, Copy, Debug, PartialEq, Eq, Structural)]
pub enum State {
    Greenware,
    Bisque,
    Glazed,
    Fired,
}

/// The state whose storage identifier is `id`, if any.
pub open spec fn state_of_id(id: i32) -> Option<State> {
    if id == 1 {
        Some(State::Greenware)
    } else if id == 2 {
        Some(State::Bisque)
    } else if id == 3 {
        Some(State::Glazed)
    } else if id == 4 {
        Some(State::Fired)
    } else {
        None
    }
}

impl State {
    /// The storage identifier of a state.
    pub open spec fn id_spec(self) -> i32 {
        match self {
            State::Greenware => 1,
            State::Bisque => 2,
            State::Glazed => 3,
            State::Fired => 4,
        }
    }

    /// Returns the storage identifier of this state.
    pub fn id(&self) -> (r: i32)
        ensures
            r == self.id_spec(),
    {
        match self {
            State::Greenware => 1,
            State::Bisque => 2,
            State::Glazed => 3,
            State::Fired => 4,
        }
    }

    /// Returns the state stored under `id`, or `UnknownState` when no state has it.
    pub fn from_id(id: i32) -> (r: Result<State, LifecycleError>)
        ensures
            match state_of_id(id) {
                Some(s) => r == Ok::<State, LifecycleError>(s),
                None => r == Err::<State, LifecycleError>(LifecycleError::UnknownState),
            },
    {
        if id == 1 {
            Ok(State::Greenware)
        } else if id == 2 {
            Ok(State::Bisque)
        } else if id == 3 {
            Ok(State::Glazed)
        } else if id == 4 {
            Ok(State::Fired)
        } else {
            Err(LifecycleError::UnknownState)
        }
    }
}

/// Every state survives the trip to its identifier and back, and an identifier
/// names at most one state.
pub proof fn lemma_id_round_trip(s: State, id: i32)
    ensures
        state_of_id(s.id_spec()) == Some(s),
        state_of_id(id) matches Some(t) ==> t.id_spec() == id,
{
}

/// The edges of the lifecycle graph: each stage leads to the next one.
pub open spec fn is_edge(from: State, to: State) -> bool {
    match (from, to) {
        (State::Greenware, State::Bisque) => true,
        (State::Bisque, State::Glazed) => true,
        (State::Glazed, State::Fired) => true,
        _ => false,
    }
}

/// Whether a work-item may move from `from` to `to`.
pub fn is_valid_transition(from: State, to: State) -> (r: bool)
    ensures
        r == is_edge(from, to),
{
    match (from, to) {
        (State::Greenware, State::Bisque) => true,
        (State::Bisque, State::Glazed) => true,
        (State::Glazed, State::Fired) => true,
        _ => false,
    }
}

/// A terminal state has no outgoing edge.
pub open spec fn is_terminal(s: State) -> bool {
    forall|t: State| !is_edge(s, t)
}

/// `Fired` is terminal, and no state may move to itself.
pub proof fn lemma_policy_shape()
    ensures
        is_terminal(State::Fired),
        forall|s: State| !is_edge(s, s),
{
}

} // verus!
