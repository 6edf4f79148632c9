use vstd::prelude::*;

use crate::event::{is_later, CurrentState, Event};
use crate::store::{is_newest_first, newest_first, LogView};

verus! {

/// `e` is an event of work-item `w` in `s` after which no event of `w` in `s` comes.
pub open spec fn is_most_recent(s: Seq<Event>, w: i32, e: Event) -> bool {
    &&& s.contains(e)
    &&& e.work_id == w
    &&& forall|i: int| 0 <= i < s.len() && s[i].work_id == w ==> !is_later(#[trigger] s[i], e)
}

/// Selects, among `events` in any order, the most recent event of `work_id`:
/// the one with the greatest time, and among equal times the greatest id.
pub fn select_most_recent(events: &Vec<Event>, work_id: i32) -> (r: Option<Event>)
    ensures
        match r {
            Some(e) => is_most_recent(events@, work_id, e),
            None => forall|i: int| 0 <= i < events@.len() ==> (#[trigger] events@[i]).work_id != work_id,
        },
{
    let mut best: Option<Event> = None;
    let mut i: usize = 0;
    while i < events.len()
        invariant
            i <= events.len(),
            match best {
                Some(b) => {
                    &&& events@.contains(b)
                    &&& b.work_id == work_id
                    &&& forall|k: int|
                        0 <= k < i && events@[k].work_id == work_id ==> !is_later(
                            #[trigger] events@[k],
                            b,
                        )
                },
                None => forall|k: int| 0 <= k < i ==> (#[trigger] events@[k]).work_id != work_id,
            },
        decreases events.len() - i,
    {
        let e = events[i];
        if e.work_id == work_id {
            let replace = match best {
                None => true,
                Some(b) => e.created_at > b.created_at || (e.created_at == b.created_at && e.id
                    > b.id),
            };
            if replace {
                best = Some(e);
                assert(events@[i as int] == e);
            }
        }
        i += 1;
    }
    best
}

/// The current state that the most recent of `events` gives work-item `work_id`.
pub fn project_current_state(events: &Vec<Event>, work_id: i32) -> (r: Option<CurrentState>)
    ensures
        match r {
            Some(c) => exists|e: Event|
                is_most_recent(events@, work_id, e) && c == (CurrentState {
                    state: e.current_state,
                    transitioned_at: e.created_at,
                }),
            None => forall|i: int| 0 <= i < events@.len() ==> (#[trigger] events@[i]).work_id != work_id,
        },
{
    match select_most_recent(events, work_id) {
        None => None,
        Some(e) => Some(CurrentState { state: e.current_state, transitioned_at: e.created_at }),
    }
}

/// The history of a work-item holds exactly its events.
pub proof fn lemma_history_members(s: Seq<Event>, w: i32, x: Event)
    ensures
        newest_first(s, w).contains(x) <==> (s.contains(x) && x.work_id == w),
    decreases s.len(),
{
    reveal(newest_first);
    if s.len() > 0 {
        let d = s.drop_last();
        lemma_history_members(d, w, x);
        let r = newest_first(d, w);
        if s.contains(x) && x != s.last() {
            let i = choose|i: int| 0 <= i < s.len() && s[i] == x;
            assert(d[i] == x);
        }
        if d.contains(x) {
            let i = choose|i: int| 0 <= i < d.len() && d[i] == x;
            assert(s[i] == x);
        }
        if s.last().work_id == w {
            let g = seq![s.last()] + r;
            if r.contains(x) {
                let i = choose|i: int| 0 <= i < r.len() && r[i] == x;
                assert(g[i + 1] == x);
            }
            if g.contains(x) && x != s.last() {
                let i = choose|i: int| 0 <= i < g.len() && g[i] == x;
                assert(r[i - 1] == x);
            }
            assert(g[0] == s.last());
        }
        assert(s[s.len() - 1] == s.last());
    }
}

/// The two ways of finding a work-item's current state agree: the event that
/// the incremental history puts first is exactly the most recent one that a
/// selection over all events finds.
pub proof fn lemma_projection_agrees(v: LogView, w: i32, e: Event)
    requires
        v.wf(),
    ensures
        is_most_recent(v.events, w, e) <==> v.latest(w) == Some(e),
{
    let h = v.history(w);
    assert(is_newest_first(h));
    if v.latest(w) == Some(e) {
        lemma_history_members(v.events, w, e);
        assert(h.contains(h[0]));
        assert forall|i: int| 0 <= i < v.events.len() && v.events[i].work_id == w implies !is_later(
            #[trigger] v.events[i],
            e,
        ) by {
            let x = v.events[i];
            lemma_history_members(v.events, w, x);
            assert(v.events.contains(x));
            let j = choose|j: int| 0 <= j < h.len() && h[j] == x;
            if j > 0 {
                assert(is_later(h[0], h[j]));
            }
        }
    }
    if is_most_recent(v.events, w, e) {
        lemma_history_members(v.events, w, e);
        let j = choose|j: int| 0 <= j < h.len() && h[j] == e;
        lemma_history_members(v.events, w, h[0]);
        assert(h.contains(h[0]));
        let i = choose|i: int| 0 <= i < v.events.len() && v.events[i] == h[0];
        assert(!is_later(v.events[i], e));
        if j > 0 {
            assert(is_later(h[0], h[j]));
        }
    }
}

} // verus!
