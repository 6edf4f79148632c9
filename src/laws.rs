use vstd::prelude::*;

use crate::error::LifecycleError;
use crate::event::CurrentState;
use crate::lifecycle::{
    after_create, after_transition, create_outcome, is_deleted, transition_outcome,
};
use crate::state::{is_edge, State};
use crate::store::{
    is_newest_first, is_valid_append, lemma_append_wf, lemma_newest_first_push,
    lemma_without_work_history, LogView,
};

verus! {

/// The store after transitions of work-item `w` to each of `targets` in turn,
/// the `i`-th at time `times[i]`.
pub open spec fn after_transitions(
    v: LogView,
    w: i32,
    targets: Seq<State>,
    times: Seq<i64>,
) -> LogView
    decreases targets.len(),
{
    if targets.len() == 0 || times.len() == 0 {
        v
    } else {
        after_transition(
            after_transitions(v, w, targets.drop_last(), times.drop_last()),
            w,
            None,
            targets.last(),
            times.last(),
        )
    }
}

/// Each state of `states` may move to the next one.
pub open spec fn is_policy_path(states: Seq<State>) -> bool {
    forall|i: int| #![trigger states[i]] 0 <= i < states.len() - 1 ==> is_edge(states[i], states[i + 1])
}

/// A freshly created work-item is in the state it was created in, recorded by
/// a single event that has no previous state.
pub proof fn lemma_create_sets_state(v: LogView, w: i32, initial: State, now: i64)
    requires
        v.wf(),
        create_outcome(v, w) is Ok,
    ensures
        after_create(v, w, initial, now).current_state(w) == Ok::<CurrentState, LifecycleError>(
            CurrentState { state: initial, transitioned_at: v.stamp(now) as i64 },
        ),
        after_create(v, w, initial, now).history(w).len() == 1,
        after_create(v, w, initial, now).history(w)[0].previous_state is None,
{
    let e = v.next_event(w, None, initial, now);
    let n = after_create(v, w, initial, now);
    lemma_newest_first_push(v.events, e, w);
    assert(v.works.contains(w) <==> v.history(w).len() > 0);
    assert(n.history(w) =~= seq![e]);
    assert(n.works[v.works.len() as int] == w);
}

proof fn lemma_transitions_step(
    v: LogView,
    w: i32,
    initial: State,
    now: i64,
    targets: Seq<State>,
    times: Seq<i64>,
)
    requires
        v.wf(),
        create_outcome(v, w) is Ok,
        targets.len() == times.len(),
        is_policy_path(seq![initial] + targets),
        v.next_id + targets.len() + 1 < i32::MAX,
    ensures
        ({
            let n = after_transitions(after_create(v, w, initial, now), w, targets, times);
            let states = seq![initial] + targets;
            &&& n.wf()
            &&& n.works.contains(w)
            &&& n.next_id == v.next_id + 1 + targets.len()
            &&& n.history(w).len() == targets.len() + 1
            &&& forall|k: int|
                0 <= k <= targets.len() ==> #[trigger] n.history(w)[k].current_state
                    == states[targets.len() - k]
        }),
    decreases targets.len(),
{
    let c = after_create(v, w, initial, now);
    let states = seq![initial] + targets;
    let e0 = v.next_event(w, None, initial, now);
    assert(is_valid_append(v, v.works.push(w), e0));
    lemma_append_wf(v, v.works.push(w), e0, now);
    lemma_create_sets_state(v, w, initial, now);
    assert(c.works[v.works.len() as int] == w);
    if targets.len() > 0 {
        let ts = targets.drop_last();
        let tm = times.drop_last();
        let prefix = seq![initial] + ts;
        assert(is_policy_path(prefix)) by {
            assert forall|i: int| #![trigger prefix[i]] 0 <= i < prefix.len() - 1 implies is_edge(
                prefix[i],
                prefix[i + 1],
            ) by {
                assert(prefix[i] == states[i] && prefix[i + 1] == states[i + 1]);
            }
        }
        lemma_transitions_step(v, w, initial, now, ts, tm);
        let m = after_transitions(c, w, ts, tm);
        let x = targets.last();
        let l = m.history(w)[0];
        assert(l.current_state == prefix[ts.len() as int]);
        let j = ts.len() as int;
        assert(states[j] == prefix[j] && states[j + 1] == x);
        assert(is_edge(states[j], states[j + 1]));
        assert(transition_outcome(m, w, None, x) == Ok::<State, LifecycleError>(l.current_state));
        let e = m.next_event(w, Some(l.current_state), x, times.last());
        assert(is_valid_append(m, m.works, e));
        lemma_append_wf(m, m.works, e, times.last());
        let n = m.with_event(e);
        assert(n == after_transitions(c, w, targets, times));
        lemma_newest_first_push(m.events, e, w);
        assert forall|k: int| 0 <= k <= targets.len() implies #[trigger] n.history(w)[k].current_state
            == states[targets.len() - k] by {
            if k > 0 {
                assert(n.history(w)[k] == m.history(w)[k - 1]);
                assert(m.history(w)[k - 1].current_state == prefix[ts.len() - (k - 1)]);
                assert(prefix[ts.len() - (k - 1)] == states[targets.len() - k]);
            }
        }
    } else {
        assert(after_transitions(c, w, targets, times) == c);
    }
}

/// After a work-item is created in `initial` and moved along a path of the
/// policy through `targets`, its history holds one event per state, newest
/// first, and its current state is the last target.
pub proof fn lemma_transitions_build_history(
    v: LogView,
    w: i32,
    initial: State,
    now: i64,
    targets: Seq<State>,
    times: Seq<i64>,
)
    requires
        v.wf(),
        create_outcome(v, w) is Ok,
        targets.len() == times.len(),
        is_policy_path(seq![initial] + targets),
        v.next_id + targets.len() + 1 < i32::MAX,
    ensures
        ({
            let n = after_transitions(after_create(v, w, initial, now), w, targets, times);
            let states = seq![initial] + targets;
            &&& n.wf()
            &&& n.history(w).len() == targets.len() + 1
            &&& is_newest_first(n.history(w))
            &&& forall|k: int|
                0 <= k <= targets.len() ==> #[trigger] n.history(w)[k].current_state
                    == states[targets.len() - k]
            &&& n.current_state(w) matches Ok(c) && c.state == states.last()
        }),
{
    lemma_transitions_step(v, w, initial, now, targets, times);
    let n = after_transitions(after_create(v, w, initial, now), w, targets, times);
    assert(is_newest_first(n.history(w)));
    assert(n.history(w)[0].current_state == (seq![initial] + targets)[targets.len() as int]);
}

/// A transition that is not an edge of the policy from the current state is
/// refused with `InvalidStateTransition` and leaves the store as it was.
pub proof fn lemma_invalid_transition_rejected(v: LogView, w: i32, requested: State, now: i64)
    requires
        v.wf(),
        v.works.contains(w),
        !is_edge(v.history(w)[0].current_state, requested),
    ensures
        transition_outcome(v, w, None, requested) == Err::<State, LifecycleError>(
            LifecycleError::InvalidStateTransition,
        ),
        after_transition(v, w, None, requested, now) == v,
{
    assert(v.works.contains(w) <==> v.history(w).len() > 0);
}

/// A refused transition, tried again, is refused with the same error, and no
/// event is added either time.
pub proof fn lemma_rejection_repeats(v: LogView, w: i32, requested: State, now1: i64, now2: i64)
    requires
        v.wf(),
        transition_outcome(v, w, None, requested) == Err::<State, LifecycleError>(
            LifecycleError::InvalidStateTransition,
        ),
    ensures
        ({
            let v1 = after_transition(v, w, None, requested, now1);
            &&& transition_outcome(v1, w, None, requested) == transition_outcome(
                v,
                w,
                None,
                requested,
            )
            &&& after_transition(v1, w, None, requested, now2) == v
            &&& v1.events.len() == v.events.len()
        }),
{
}

/// Two transitions that both read the same latest event and both pass the
/// policy cannot both commit: once the first has appended its event, the
/// second is refused with `Conflict` and changes nothing.
pub proof fn lemma_one_of_two_commits(
    v: LogView,
    w: i32,
    a: State,
    b: State,
    now1: i64,
    now2: i64,
)
    requires
        v.wf(),
        v.works.contains(w),
        is_edge(v.history(w)[0].current_state, a),
        is_edge(v.history(w)[0].current_state, b),
        v.next_id < i32::MAX,
    ensures
        ({
            let seen = v.history(w)[0].id;
            let v1 = after_transition(v, w, Some(seen), a, now1);
            &&& v1.history(w).len() == v.history(w).len() + 1
            &&& v1.history(w)[0].previous_state == Some(v.history(w)[0].current_state)
            &&& transition_outcome(v1, w, Some(seen), b) == Err::<State, LifecycleError>(
                LifecycleError::Conflict,
            )
            &&& after_transition(v1, w, Some(seen), b, now2) == v1
        }),
{
    assert(v.works.contains(w) <==> v.history(w).len() > 0);
    let l = v.history(w)[0];
    let e = v.next_event(w, Some(l.current_state), a, now1);
    lemma_newest_first_push(v.events, e, w);
    assert(l.id < v.next_id);
}

/// Once a work-item is deleted, it is not found: neither its current state
/// nor a transition of it is available, and it has no events.
pub proof fn lemma_deleted_work_not_found(v: LogView, n: LogView, w: i32, requested: State)
    requires
        v.wf(),
        is_deleted(v, n, w),
    ensures
        !n.works.contains(w),
        n.history(w).len() == 0,
        n.current_state(w) == Err::<CurrentState, LifecycleError>(LifecycleError::NotFound),
        transition_outcome(n, w, None, requested) == Err::<State, LifecycleError>(
            LifecycleError::NotFound,
        ),
{
    lemma_without_work_history(v.events, w, w);
}

} // verus!
