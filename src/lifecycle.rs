use vstd::prelude::*;

use crate::error::LifecycleError;
use crate::event::Event;
use crate::state::{is_edge, is_valid_transition, State};
use crate::store::{
    is_valid_append, lemma_append_wf, lemma_delete_wf, without_work, EventStore, LogView,
};

verus! {

/// What a transition to `requested` decides, given the work-item's latest
/// event: the state it leaves, or why it is refused.
pub open spec fn decision(latest: Option<Event>, requested: State) -> Result<State, LifecycleError> {
    match latest {
        None => Err(LifecycleError::NoCurrentState),
        Some(e) => if is_edge(e.current_state, requested) {
            Ok(e.current_state)
        } else {
            Err(LifecycleError::InvalidStateTransition)
        },
    }
}

/// Decides a transition to `requested` from the work-item's latest event.
/// On success the result is the state that the new event records as previous.
pub fn decide_transition(latest: Option<Event>, requested: State) -> (r: Result<
    State,
    LifecycleError,
>)
    ensures
        r == decision(latest, requested),
{
    match latest {
        None => Err(LifecycleError::NoCurrentState),
        Some(e) => if is_valid_transition(e.current_state, requested) {
            Ok(e.current_state)
        } else {
            Err(LifecycleError::InvalidStateTransition)
        },
    }
}

/// The outcome of a transition of work-item `w` to `requested` in `v`; with
/// `expected`, only if the latest event of `w` still has that id.
pub open spec fn transition_outcome(
    v: LogView,
    w: i32,
    expected: Option<i32>,
    requested: State,
) -> Result<State, LifecycleError> {
    if !v.works.contains(w) {
        Err(LifecycleError::NotFound)
    } else if v.latest(w) is Some && expected is Some && expected->0 != v.latest(w)->0.id {
        Err(LifecycleError::Conflict)
    } else {
        match decision(v.latest(w), requested) {
            Err(e) => Err(e),
            Ok(cur) => if v.next_id >= i32::MAX {
                Err(LifecycleError::StorageError)
            } else {
                Ok(cur)
            },
        }
    }
}

/// The store after that transition at time `now`: one event more on
/// success, unchanged otherwise.
pub open spec fn after_transition(
    v: LogView,
    w: i32,
    expected: Option<i32>,
    requested: State,
    now: i64,
) -> LogView {
    match transition_outcome(v, w, expected, requested) {
        Ok(cur) => v.with_event(v.next_event(w, Some(cur), requested, now)),
        Err(_) => v,
    }
}

/// The outcome of creating work-item `w`: refused by the store when the id is
/// taken or no event id is left.
pub open spec fn create_outcome(v: LogView, w: i32) -> Result<(), LifecycleError> {
    if v.works.contains(w) || v.next_id >= i32::MAX {
        Err(LifecycleError::StorageError)
    } else {
        Ok(())
    }
}

/// The store after work-item `w` was created in state `initial` at time `now`.
pub open spec fn after_create(v: LogView, w: i32, initial: State, now: i64) -> LogView {
    match create_outcome(v, w) {
        Ok(_) => LogView {
            works: v.works.push(w),
            ..v.with_event(v.next_event(w, None, initial, now))
        },
        Err(_) => v,
    }
}

/// Whether `n` is `v` without work-item `w` and its events.
pub open spec fn is_deleted(v: LogView, n: LogView, w: i32) -> bool {
    &&& n.events == without_work(v.events, w)
    &&& forall|x: i32| #[trigger] n.works.contains(x) <==> (v.works.contains(x) && x != w)
    &&& n.next_id == v.next_id
    &&& n.clock == v.clock
}

impl EventStore {
    /// Creates work-item `work_id` with its first event, in state `initial` and
    /// with no previous state; the work-item and the event come into being together.
    pub fn create(&mut self, work_id: i32, initial: State, now: i64) -> (r: Result<
        Event,
        LifecycleError,
    >)
        requires
            old(self).wf(),
        ensures
            final(self).wf(),
            final(self)@ == after_create(old(self)@, work_id, initial, now),
            match create_outcome(old(self)@, work_id) {
                Ok(_) => r == Ok::<Event, LifecycleError>(
                    old(self)@.next_event(work_id, None, initial, now),
                ),
                Err(e) => r == Err::<Event, LifecycleError>(e),
            },
    {
        if self.contains_work(work_id) || self.next_id() >= i32::MAX {
            return Err(LifecycleError::StorageError);
        }
        let ghost v = self@;
        self.add_work(work_id);
        let e = self.append(work_id, None, initial, now);
        proof {
            assert(v.next_event(work_id, None, initial, now) == e);
            assert(is_valid_append(v, v.works.push(work_id), e));
            lemma_append_wf(v, v.works.push(work_id), e, now);
        }
        Ok(e)
    }

    fn commit(&mut self, work_id: i32, expected: Option<i32>, requested: State, now: i64) -> (r:
        Result<Event, LifecycleError>)
        requires
            old(self).wf(),
        ensures
            final(self).wf(),
            final(self)@ == after_transition(old(self)@, work_id, expected, requested, now),
            match transition_outcome(old(self)@, work_id, expected, requested) {
                Ok(cur) => r == Ok::<Event, LifecycleError>(
                    old(self)@.next_event(work_id, Some(cur), requested, now),
                ),
                Err(e) => r == Err::<Event, LifecycleError>(e),
            },
    {
        let latest = match self.latest(work_id) {
            Err(e) => return Err(e),
            Ok(l) => l,
        };
        if let (Some(l), Some(x)) = (latest, expected) {
            if l.id != x {
                return Err(LifecycleError::Conflict);
            }
        }
        let current = match decide_transition(latest, requested) {
            Err(e) => return Err(e),
            Ok(c) => c,
        };
        if self.next_id() >= i32::MAX {
            return Err(LifecycleError::StorageError);
        }
        let ghost v = self@;
        let e = self.append(work_id, Some(current), requested, now);
        proof {
            assert(is_valid_append(v, v.works, e));
            lemma_append_wf(v, v.works, e, now);
        }
        Ok(e)
    }

    /// Moves work-item `work_id` to `requested`: reads its latest event,
    /// checks the policy, and appends the new event, or changes nothing.
    pub fn transition(&mut self, work_id: i32, requested: State, now: i64) -> (r: Result<
        Event,
        LifecycleError,
    >)
        requires
            old(self).wf(),
        ensures
            final(self).wf(),
            final(self)@ == after_transition(old(self)@, work_id, None, requested, now),
            match transition_outcome(old(self)@, work_id, None, requested) {
                Ok(cur) => r == Ok::<Event, LifecycleError>(
                    old(self)@.next_event(work_id, Some(cur), requested, now),
                ),
                Err(e) => r == Err::<Event, LifecycleError>(e),
            },
    {
        self.commit(work_id, None, requested, now)
    }

    /// Like `transition`, but only while the latest event of `work_id` is still
    /// `expected_event_id`, the one the caller read; else `Conflict`.
    pub fn transition_if_latest(
        &mut self,
        work_id: i32,
        expected_event_id: i32,
        requested: State,
        now: i64,
    ) -> (r: Result<Event, LifecycleError>)
        requires
            old(self).wf(),
        ensures
            final(self).wf(),
            final(self)@ == after_transition(
                old(self)@,
                work_id,
                Some(expected_event_id),
                requested,
                now,
            ),
            match transition_outcome(old(self)@, work_id, Some(expected_event_id), requested) {
                Ok(cur) => r == Ok::<Event, LifecycleError>(
                    old(self)@.next_event(work_id, Some(cur), requested, now),
                ),
                Err(e) => r == Err::<Event, LifecycleError>(e),
            },
    {
        self.commit(work_id, Some(expected_event_id), requested, now)
    }

    /// Deletes work-item `work_id` and all of its events as one step, or
    /// returns `NotFound` and changes nothing.
    pub fn delete_work(&mut self, work_id: i32) -> (r: Result<(), LifecycleError>)
        requires
            old(self).wf(),
        ensures
            final(self).wf(),
            old(self)@.works.contains(work_id) ==> r is Ok && is_deleted(
                old(self)@,
                final(self)@,
                work_id,
            ),
            !old(self)@.works.contains(work_id) ==> r == Err::<(), LifecycleError>(
                LifecycleError::NotFound,
            ) && final(self)@ == old(self)@,
    {
        let ghost v = self@;
        let i = match self.find_work_index(work_id) {
            None => return Err(LifecycleError::NotFound),
            Some(i) => i,
        };
        self.remove_work_at(i);
        self.delete_all(work_id);
        proof {
            let works = v.works.remove(i as int);
            assert forall|x: i32| #[trigger] works.contains(x) <==> (v.works.contains(x) && x != work_id) by {
                if works.contains(x) {
                    let k = choose|k: int| 0 <= k < works.len() && works[k] == x;
                    if k < i {
                        assert(v.works[k] == x);
                    } else {
                        assert(v.works[k + 1] == x);
                    }
                }
                if v.works.contains(x) && x != work_id {
                    let k = choose|k: int| 0 <= k < v.works.len() && v.works[k] == x;
                    if k < i {
                        assert(works[k] == x);
                    } else {
                        assert(works[k - 1] == x);
                    }
                }
            }
            assert(works.no_duplicates()) by {
                assert forall|a: int, b: int|
                    0 <= a < works.len() && 0 <= b < works.len() && a != b implies works[a]
                    != works[b] by {
                    let a2 = if a < i { a } else { a + 1 };
                    let b2 = if b < i { b } else { b + 1 };
                    assert(works[a] == v.works[a2] && works[b] == v.works[b2]);
                }
            }
            lemma_delete_wf(v, works, work_id);
        }
        Ok(())
    }
}

} // verus!
