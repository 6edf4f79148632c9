use work_lifecycle::error::LifecycleError;
use work_lifecycle::event::{CurrentState, Event};
use work_lifecycle::lifecycle::decide_transition;
use work_lifecycle::projection::{project_current_state, select_most_recent};
use work_lifecycle::state::{is_valid_transition, State};
use work_lifecycle::store::EventStore;

fn store_with(work_id: i32, initial: State, now: i64) -> EventStore {
    let mut store = EventStore::new();
    store.create(work_id, initial, now).unwrap();
    store
}

#[test]
fn state_ids_round_trip() {
    for s in [State::Greenware, State::Bisque, State::Glazed, State::Fired] {
        assert_eq!(State::from_id(s.id()), Ok(s));
    }
    assert_eq!(State::Greenware.id(), 1);
    assert_eq!(State::Bisque.id(), 2);
    assert_eq!(State::Glazed.id(), 3);
    assert_eq!(State::Fired.id(), 4);
}

#[test]
fn unknown_state_ids_are_rejected() {
    assert_eq!(State::from_id(0), Err(LifecycleError::UnknownState));
    assert_eq!(State::from_id(5), Err(LifecycleError::UnknownState));
    assert_eq!(State::from_id(-1), Err(LifecycleError::UnknownState));
    assert_eq!(State::from_id(i32::MAX), Err(LifecycleError::UnknownState));
}

#[test]
fn policy_edges() {
    assert!(is_valid_transition(State::Greenware, State::Bisque));
    assert!(is_valid_transition(State::Bisque, State::Glazed));
    assert!(is_valid_transition(State::Glazed, State::Fired));
    assert!(!is_valid_transition(State::Bisque, State::Fired));
    assert!(!is_valid_transition(State::Greenware, State::Greenware));
    assert!(!is_valid_transition(State::Bisque, State::Greenware));
    for s in [State::Greenware, State::Bisque, State::Glazed, State::Fired] {
        assert!(!is_valid_transition(State::Fired, s));
    }
}

#[test]
fn event_from_row_checks_ids() {
    let e = Event::from_row(7, 42, Some(1), 2, 1000).unwrap();
    assert_eq!(
        e,
        Event {
            id: 7,
            work_id: 42,
            previous_state: Some(State::Greenware),
            current_state: State::Bisque,
            created_at: 1000,
        }
    );
    assert_eq!(e.previous_state_id(), Some(1));
    let first = Event::from_row(1, 42, None, 3, 5).unwrap();
    assert_eq!(first.previous_state, None);
    assert_eq!(first.previous_state_id(), None);
    assert_eq!(Event::from_row(1, 42, None, 9, 5), Err(LifecycleError::UnknownState));
    assert_eq!(Event::from_row(1, 42, Some(0), 1, 5), Err(LifecycleError::UnknownState));
}

#[test]
fn decide_transition_outcomes() {
    let latest = Event::from_row(3, 1, Some(1), 2, 10).unwrap();
    assert_eq!(decide_transition(Some(latest), State::Glazed), Ok(State::Bisque));
    assert_eq!(
        decide_transition(Some(latest), State::Fired),
        Err(LifecycleError::InvalidStateTransition)
    );
    assert_eq!(decide_transition(None, State::Bisque), Err(LifecycleError::NoCurrentState));
}

#[test]
fn create_sets_initial_state() {
    let mut store = EventStore::new();
    let e = store.create(9, State::Glazed, 100).unwrap();
    assert_eq!(e.previous_state, None);
    assert_eq!(e.current_state, State::Glazed);
    assert_eq!(e.work_id, 9);
    assert_eq!(
        store.current_state(9),
        Ok(CurrentState { state: State::Glazed, transitioned_at: 100 })
    );
    assert_eq!(store.all(9).unwrap(), vec![e]);
    assert_eq!(store.latest(9), Ok(Some(e)));
}

#[test]
fn create_twice_is_refused() {
    let mut store = store_with(9, State::Greenware, 1);
    assert_eq!(store.create(9, State::Bisque, 2), Err(LifecycleError::StorageError));
    assert_eq!(store.all(9).unwrap().len(), 1);
    assert_eq!(store.current_state(9).unwrap().state, State::Greenware);
}

#[test]
fn path_of_transitions_builds_history() {
    let mut store = store_with(5, State::Greenware, 10);
    store.transition(5, State::Bisque, 20).unwrap();
    store.transition(5, State::Glazed, 30).unwrap();
    store.transition(5, State::Fired, 40).unwrap();
    let all = store.all(5).unwrap();
    assert_eq!(all.len(), 4);
    let states: Vec<State> = all.iter().map(|e| e.current_state).collect();
    assert_eq!(states, vec![State::Fired, State::Glazed, State::Bisque, State::Greenware]);
    let times: Vec<i64> = all.iter().map(|e| e.created_at).collect();
    assert_eq!(times, vec![40, 30, 20, 10]);
    assert_eq!(all[0].previous_state, Some(State::Glazed));
    assert_eq!(all[3].previous_state, None);
    assert_eq!(
        store.current_state(5),
        Ok(CurrentState { state: State::Fired, transitioned_at: 40 })
    );
}

#[test]
fn clock_going_back_keeps_order() {
    let mut store = store_with(5, State::Greenware, 100);
    let e = store.transition(5, State::Bisque, 50).unwrap();
    assert_eq!(e.created_at, 100);
    assert_eq!(store.current_state(5).unwrap().state, State::Bisque);
    let all = store.all(5).unwrap();
    assert_eq!(all[0], e);
    assert!(all[0].id > all[1].id);
}

#[test]
fn invalid_transition_leaves_log_unchanged() {
    let mut store = store_with(3, State::Greenware, 1);
    let before = store.all(3).unwrap();
    assert_eq!(
        store.transition(3, State::Glazed, 2),
        Err(LifecycleError::InvalidStateTransition)
    );
    assert_eq!(store.all(3).unwrap(), before);
}

#[test]
fn terminal_state_refuses_every_target() {
    let mut store = store_with(3, State::Glazed, 1);
    store.transition(3, State::Fired, 2).unwrap();
    for s in [State::Greenware, State::Bisque, State::Glazed, State::Fired] {
        assert_eq!(store.transition(3, s, 3), Err(LifecycleError::InvalidStateTransition));
    }
    assert_eq!(store.all(3).unwrap().len(), 2);
}

#[test]
fn rejection_repeats_identically() {
    let mut store = store_with(4, State::Bisque, 1);
    let first = store.transition(4, State::Greenware, 2);
    let count = store.all(4).unwrap().len();
    let second = store.transition(4, State::Greenware, 3);
    assert_eq!(first, Err(LifecycleError::InvalidStateTransition));
    assert_eq!(first, second);
    assert_eq!(store.all(4).unwrap().len(), count);
    assert_eq!(count, 1);
}

#[test]
fn two_transitions_from_one_read_commit_once() {
    let mut store = store_with(8, State::Greenware, 1);
    let seen = store.latest(8).unwrap().unwrap().id;
    let first = store.transition_if_latest(8, seen, State::Bisque, 2);
    let second = store.transition_if_latest(8, seen, State::Bisque, 2);
    assert!(first.is_ok());
    assert_eq!(second, Err(LifecycleError::Conflict));
    let all = store.all(8).unwrap();
    assert_eq!(all.len(), 2);
    assert_eq!(all.iter().filter(|e| e.previous_state == Some(State::Greenware)).count(), 1);
}

#[test]
fn transition_if_latest_with_fresh_read_succeeds() {
    let mut store = store_with(8, State::Greenware, 1);
    let seen = store.latest(8).unwrap().unwrap().id;
    store.transition_if_latest(8, seen, State::Bisque, 2).unwrap();
    let seen = store.latest(8).unwrap().unwrap().id;
    let e = store.transition_if_latest(8, seen, State::Glazed, 3).unwrap();
    assert_eq!(e.previous_state, Some(State::Bisque));
    assert_eq!(store.current_state(8).unwrap().state, State::Glazed);
}

#[test]
fn deleted_work_is_not_found() {
    let mut store = store_with(6, State::Greenware, 1);
    store.create(7, State::Bisque, 2).unwrap();
    store.transition(6, State::Bisque, 3).unwrap();
    assert_eq!(store.delete_work(6), Ok(()));
    assert_eq!(store.all(6), Err(LifecycleError::NotFound));
    assert_eq!(store.current_state(6), Err(LifecycleError::NotFound));
    assert_eq!(store.latest(6), Err(LifecycleError::NotFound));
    assert_eq!(store.transition(6, State::Glazed, 4), Err(LifecycleError::NotFound));
    assert_eq!(store.delete_work(6), Err(LifecycleError::NotFound));
    assert_eq!(store.all(7).unwrap().len(), 1);
    assert_eq!(store.all_global().len(), 1);
}

#[test]
fn unknown_work_is_not_found() {
    let mut store = EventStore::new();
    assert_eq!(store.all(1), Err(LifecycleError::NotFound));
    assert_eq!(store.current_state(1), Err(LifecycleError::NotFound));
    assert_eq!(store.transition(1, State::Bisque, 1), Err(LifecycleError::NotFound));
    assert!(!store.contains_work(1));
}

#[test]
fn all_global_is_newest_first() {
    let mut store = store_with(1, State::Greenware, 10);
    store.create(2, State::Bisque, 20).unwrap();
    store.transition(1, State::Bisque, 30).unwrap();
    let all = store.all_global();
    let keys: Vec<(i32, i64)> = all.iter().map(|e| (e.work_id, e.created_at)).collect();
    assert_eq!(keys, vec![(1, 30), (2, 20), (1, 10)]);
}

#[test]
fn ceramic_example() {
    let mut store = EventStore::new();
    let created = store.create(42, State::Greenware, 1).unwrap();
    assert_eq!(created.previous_state, None);
    assert_eq!(created.current_state, State::Greenware);
    let moved = store.transition(42, State::Bisque, 2).unwrap();
    assert_eq!(moved.previous_state, Some(State::Greenware));
    assert_eq!(moved.current_state, State::Bisque);
    assert_eq!(
        store.transition(42, State::Fired, 3),
        Err(LifecycleError::InvalidStateTransition)
    );
    assert_eq!(store.all(42).unwrap().len(), 2);
}

#[test]
fn select_most_recent_by_time_then_id() {
    let ev = |id: i32, work_id: i32, created_at: i64| Event {
        id,
        work_id,
        previous_state: None,
        current_state: State::Greenware,
        created_at,
    };
    let events = vec![ev(1, 1, 10), ev(5, 1, 30), ev(3, 2, 50), ev(4, 1, 30), ev(2, 1, 20)];
    assert_eq!(select_most_recent(&events, 1), Some(ev(5, 1, 30)));
    assert_eq!(select_most_recent(&events, 2), Some(ev(3, 2, 50)));
    assert_eq!(select_most_recent(&events, 3), None);
    assert_eq!(select_most_recent(&Vec::new(), 1), None);
}

#[test]
fn selection_agrees_with_store_projection() {
    let mut store = store_with(1, State::Greenware, 10);
    store.create(2, State::Glazed, 10).unwrap();
    store.transition(1, State::Bisque, 10).unwrap();
    store.transition(2, State::Fired, 5).unwrap();
    let all = store.all_global();
    for w in [1, 2] {
        let selected = select_most_recent(&all, w).unwrap();
        assert_eq!(store.latest(w), Ok(Some(selected)));
        assert_eq!(
            project_current_state(&all, w),
            Some(store.current_state(w).unwrap())
        );
    }
    assert_eq!(project_current_state(&all, 3), None);
}
