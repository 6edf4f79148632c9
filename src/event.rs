use vstd::prelude::*;

use crate::error::LifecycleError;
use crate::state::{state_of_id, State};

verus! {

/// An immutable record of one state change of a work-item. `created_at` is
/// in seconds since the Unix epoch.
#[derive(Clone, Copy, Debug, PartialEq, Eq, Structural)]
pub struct Event {
    pub id: i32,
    pub work_id: i32,
    pub previous_state: Option<State>,
    pub current_state: State,
    pub created_at: i64,
}

/// The state and time of a work-item's most recent event.
#[derive(Clone, Copy, Debug, PartialEq, Eq, Structural)]
pub struct CurrentState {
    pub state: State,
    pub transitioned_at: i64,
}

/// Whether `a` comes after `b` in the order of events: by time, then by id.
pub open spec fn is_later(a: Event, b: Event) -> bool {
    a.created_at > b.created_at || (a.created_at == b.created_at && a.id > b.id)
}

/// The event that a stored record describes, if both of its state identifiers are known.
pub open spec fn event_of_row(
    id: i32,
    work_id: i32,
    previous_state_id: Option<i32>,
    current_state_id: i32,
    created_at: i64,
) -> Option<Event> {
    match state_of_id(current_state_id) {
        None => None,
        Some(cur) => match previous_state_id {
            None => Some(
                Event { id, work_id, previous_state: None, current_state: cur, created_at },
            ),
            Some(p) => match state_of_id(p) {
                None => None,
                Some(prev) => Some(
                    Event { id, work_id, previous_state: Some(prev), current_state: cur, created_at },
                ),
            },
        },
    }
}

impl Event {
    /// Builds an event from its stored fields, checking both state identifiers
    /// against the catalog.
    pub fn from_row(
        id: i32,
        work_id: i32,
        previous_state_id: Option<i32>,
        current_state_id: i32,
        created_at: i64,
    ) -> (r: Result<Event, LifecycleError>)
        ensures
            match event_of_row(id, work_id, previous_state_id, current_state_id, created_at) {
                Some(e) => r == Ok::<Event, LifecycleError>(e),
                None => r == Err::<Event, LifecycleError>(LifecycleError::UnknownState),
            },
    {
        let current_state = State::from_id(current_state_id)?;
        let previous_state = match previous_state_id {
            None => None,
            Some(p) => Some(State::from_id(p)?),
        };
        Ok(Event { id, work_id, previous_state, current_state, created_at })
    }

    /// The stored identifier of the previous state, if there is one.
    pub fn previous_state_id(&self) -> (r: Option<i32>)
        ensures
            r == match self.previous_state {
                Some(s) => Some(s.id_spec()),
                None => None::<i32>,
            },
    {
        match self.previous_state {
            Some(s) => Some(s.id()),
            None => None,
        }
    }
}

} // verus!
