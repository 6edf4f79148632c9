use vstd::prelude::*;

use crate::error::LifecycleError;
use crate::event::{is_later, CurrentState, Event};
use crate::state::{is_edge, State};

verus! {

/// The events of work-item `w` in `s`, newest first, where `s` lists events
/// oldest first.
#[verifier::opaque]
pub open spec fn newest_first(s: Seq<Event>, w: i32) -> Seq<Event>
    decreases s.len(),
{
    if s.len() == 0 {
        Seq::empty()
    } else {
        let rest = newest_first(s.drop_last(), w);
        if s.last().work_id == w {
            seq![s.last()] + rest
        } else {
            rest
        }
    }
}

/// The events of `s` that do not belong to work-item `w`, in their order.
pub open spec fn without_work(s: Seq<Event>, w: i32) -> Seq<Event>
    decreases s.len(),
{
    if s.len() == 0 {
        Seq::empty()
    } else {
        let rest = without_work(s.drop_last(), w);
        if s.last().work_id == w {
            rest
        } else {
            rest.push(s.last())
        }
    }
}

/// Each event of `h` (newest first) was moved to from the state of the one
/// after it along an edge of the policy, and the oldest one has no previous state.
pub open spec fn is_path(h: Seq<Event>) -> bool {
    &&& forall|k: int|
        #![trigger h[k], h[k + 1]]
        0 <= k < h.len() - 1 ==> h[k].previous_state == Some(h[k + 1].current_state)
            && is_edge(h[k + 1].current_state, h[k].current_state)
    &&& h.len() > 0 ==> h.last().previous_state is None
}

/// `h` runs from the latest event to the earliest one.
pub open spec fn is_newest_first(h: Seq<Event>) -> bool {
    forall|i: int, j: int| 0 <= i < j < h.len() ==> is_later(#[trigger] h[i], #[trigger] h[j])
}

/// `s` runs from the earliest event to the latest one.
pub open spec fn is_oldest_first(s: Seq<Event>) -> bool {
    forall|i: int, j: int| 0 <= i < j < s.len() ==> is_later(#[trigger] s[j], #[trigger] s[i])
}

/// What an event store holds: the work-items it knows, its events oldest
/// first, the id that the next event gets, and the latest timestamp it issued.
pub struct LogView {
    pub works: Seq<i32>,
    pub events: Seq<Event>,
    pub next_id: int,
    pub clock: int,
}

impl LogView {
    /// The events of work-item `w`, newest first.
    pub open spec fn history(self, w: i32) -> Seq<Event> {
        newest_first(self.events, w)
    }

    /// The most recent event of work-item `w`.
    pub open spec fn latest(self, w: i32) -> Option<Event> {
        if self.history(w).len() > 0 {
            Some(self.history(w)[0])
        } else {
            None
        }
    }

    /// The timestamp that an event appended at time `now` gets: never earlier
    /// than one already issued.
    pub open spec fn stamp(self, now: i64) -> int {
        if now > self.clock {
            now as int
        } else {
            self.clock
        }
    }

    /// The event that an append at time `now` records.
    pub open spec fn next_event(
        self,
        w: i32,
        previous_state: Option<State>,
        current_state: State,
        now: i64,
    ) -> Event {
        Event {
            id: self.next_id as i32,
            work_id: w,
            previous_state,
            current_state,
            created_at: self.stamp(now) as i64,
        }
    }

    /// The store after `e` was appended.
    pub open spec fn with_event(self, e: Event) -> LogView {
        LogView {
            works: self.works,
            events: self.events.push(e),
            next_id: self.next_id + 1,
            clock: e.created_at as int,
        }
    }

    /// The current state of work-item `w`, as the projection reports it.
    pub open spec fn current_state(self, w: i32) -> Result<CurrentState, LifecycleError> {
        if !self.works.contains(w) {
            Err(LifecycleError::NotFound)
        } else {
            match self.latest(w) {
                None => Err(LifecycleError::NoCurrentState),
                Some(e) => Ok(CurrentState { state: e.current_state, transitioned_at: e.created_at }),
            }
        }
    }

    /// The invariant of a store: every known work-item has a history, every
    /// history is a path of the policy graph, and events are ordered by time
    /// and id, below the next id and the clock.
    pub open spec fn wf(self) -> bool {
        &&& self.works.no_duplicates()
        &&& 1 <= self.next_id <= i32::MAX
        &&& i64::MIN <= self.clock <= i64::MAX
        &&& is_oldest_first(self.events)
        &&& forall|i: int|
            0 <= i < self.events.len() ==> (#[trigger] self.events[i]).id < self.next_id
                && self.events[i].created_at <= self.clock
        &&& forall|w: i32| #[trigger]
            self.works.contains(w) <==> self.history(w).len() > 0
        &&& forall|w: i32| #[trigger] is_path(self.history(w))
        &&& forall|w: i32| #[trigger] is_newest_first(self.history(w))
        &&& forall|w: i32, k: int|
            0 <= k < self.history(w).len() ==> (#[trigger] self.history(w)[k]).id < self.next_id
                && self.history(w)[k].created_at <= self.clock
    }
}

/// Whether `e`, appended to `v` with the work-items becoming `works`, either
/// continues the history of a known work-item along an edge of the policy or
/// starts the history of a new one.
pub open spec fn is_valid_append(v: LogView, works: Seq<i32>, e: Event) -> bool {
    let w = e.work_id;
    ||| works == v.works && v.works.contains(w) && e.previous_state == Some(
        v.history(w)[0].current_state,
    ) && is_edge(v.history(w)[0].current_state, e.current_state)
    ||| works == v.works.push(w) && !v.works.contains(w) && e.previous_state is None
}

proof fn lemma_append_works(v: LogView, works: Seq<i32>, e: Event, x: i32)
    requires
        v.wf(),
        is_valid_append(v, works, e),
    ensures
        works.no_duplicates(),
        works.contains(x) <==> (v.works.contains(x) || x == e.work_id),
{
    let w = e.work_id;
    if works != v.works {
        assert forall|i: int, j: int|
            0 <= i < works.len() && 0 <= j < works.len() && i != j implies works[i]
            != works[j] by {
            if i == v.works.len() {
                assert(v.works.contains(v.works[j]));
            } else if j == v.works.len() {
                assert(v.works.contains(v.works[i]));
            }
        }
        assert(works[v.works.len() as int] == w);
        if works.contains(x) && x != w {
            let i = choose|i: int| 0 <= i < works.len() && works[i] == x;
            assert(v.works[i] == x);
        }
        if v.works.contains(x) {
            let i = choose|i: int| 0 <= i < v.works.len() && v.works[i] == x;
            assert(works[i] == x);
        }
    }
}

proof fn lemma_append_history(v: LogView, works: Seq<i32>, e: Event, now: i64, x: i32)
    requires
        v.wf(),
        v.next_id < i32::MAX,
        e == v.next_event(e.work_id, e.previous_state, e.current_state, now),
        is_valid_append(v, works, e),
    ensures
        ({
            let n = LogView { works, ..v.with_event(e) };
            &&& n.works.contains(x) <==> n.history(x).len() > 0
            &&& is_path(n.history(x))
            &&& is_newest_first(n.history(x))
            &&& forall|k: int|
                0 <= k < n.history(x).len() ==> (#[trigger] n.history(x)[k]).id < n.next_id
                    && n.history(x)[k].created_at <= n.clock
        }),
{
    let n = LogView { works, ..v.with_event(e) };
    let w = e.work_id;
    lemma_newest_first_push(v.events, e, x);
    lemma_append_works(v, works, e, x);
    let h = v.history(x);
    let g = n.history(x);
    assert(is_path(h) && is_newest_first(h));
    if x == w {
        assert(v.works.contains(w) <==> h.len() > 0);
        assert forall|k: int| #![trigger g[k], g[k + 1]] 0 <= k < g.len() - 1 implies g[k].previous_state
            == Some(g[k + 1].current_state) && is_edge(
            g[k + 1].current_state,
            g[k].current_state,
        ) by {
            if k > 0 {
                let j = k - 1;
                assert(g[k] == h[j] && g[k + 1] == h[j + 1]);
            } else {
                assert(g[0] == e && g[1] == h[0]);
            }
        }
        assert forall|i: int, j: int| 0 <= i < j < g.len() implies is_later(
            #[trigger] g[i],
            #[trigger] g[j],
        ) by {
            if i == 0 {
                assert(g[j] == h[j - 1]);
                assert(h[j - 1].id < v.next_id);
            } else {
                assert(g[i] == h[i - 1] && g[j] == h[j - 1]);
            }
        }
        assert forall|k: int| 0 <= k < g.len() implies (#[trigger] g[k]).id < n.next_id
            && g[k].created_at <= n.clock by {
            if k > 0 {
                assert(g[k] == h[k - 1]);
                assert(h[k - 1].id < v.next_id);
            }
        }
    } else {
        assert(v.works.contains(x) <==> h.len() > 0);
        assert forall|k: int| 0 <= k < g.len() implies (#[trigger] g[k]).id < n.next_id
            && g[k].created_at <= n.clock by {
            assert(h[k].id < v.next_id);
        }
    }
}

/// Appending an event that continues a work-item's history along an edge of
/// the policy, or that starts the history of a new work-item, keeps the
/// invariant.
pub proof fn lemma_append_wf(v: LogView, works: Seq<i32>, e: Event, now: i64)
    requires
        v.wf(),
        v.next_id < i32::MAX,
        e == v.next_event(e.work_id, e.previous_state, e.current_state, now),
        is_valid_append(v, works, e),
    ensures
        (LogView { works, ..v.with_event(e) }).wf(),
{
    let n = LogView { works, ..v.with_event(e) };
    assert forall|i: int, j: int| 0 <= i < j < n.events.len() implies is_later(
        #[trigger] n.events[j],
        #[trigger] n.events[i],
    ) by {
        if j == v.events.len() {
            assert(v.events[i].id < v.next_id);
        } else {
            assert(n.events[i] == v.events[i] && n.events[j] == v.events[j]);
        }
    }
    assert forall|i: int| 0 <= i < n.events.len() implies (#[trigger] n.events[i]).id < n.next_id
        && n.events[i].created_at <= n.clock by {
        if i < v.events.len() {
            assert(n.events[i] == v.events[i]);
        }
    }
    lemma_append_works(v, works, e, e.work_id);
    assert forall|x: i32| #[trigger] n.works.contains(x) <==> n.history(x).len() > 0 by {
        lemma_append_history(v, works, e, now, x);
    }
    assert forall|x: i32| #[trigger] is_path(n.history(x)) by {
        lemma_append_history(v, works, e, now, x);
    }
    assert forall|x: i32| #[trigger] is_newest_first(n.history(x)) by {
        lemma_append_history(v, works, e, now, x);
    }
    assert forall|x: i32, k: int| 0 <= k < n.history(x).len() implies (#[trigger] n.history(
        x,
    )[k]).id < n.next_id && n.history(x)[k].created_at <= n.clock by {
        lemma_append_history(v, works, e, now, x);
    }
}

/// The history of a work-item gains the appended event at its front when the
/// event is that work-item's, and is unchanged otherwise.
pub proof fn lemma_newest_first_push(s: Seq<Event>, e: Event, w: i32)
    ensures
        newest_first(s.push(e), w) == (if e.work_id == w {
            seq![e] + newest_first(s, w)
        } else {
            newest_first(s, w)
        }),
{
    reveal(newest_first);
    assert(s.push(e).drop_last() =~= s);
}

/// Leaving out the events of `w` empties its history and keeps every other one.
pub proof fn lemma_without_work_history(s: Seq<Event>, w: i32, v: i32)
    ensures
        newest_first(without_work(s, w), v) == (if v == w {
            Seq::<Event>::empty()
        } else {
            newest_first(s, v)
        }),
    decreases s.len(),
{
    reveal(newest_first);
    if s.len() > 0 {
        lemma_without_work_history(s.drop_last(), w, v);
        if s.last().work_id != w {
            lemma_newest_first_push(without_work(s.drop_last(), w), s.last(), v);
        }
    }
}

/// Leaving out the events of a work-item keeps the others and their order.
pub proof fn lemma_without_work_sorted(s: Seq<Event>, w: i32)
    requires
        is_oldest_first(s),
    ensures
        is_oldest_first(without_work(s, w)),
        forall|x: Event| without_work(s, w).contains(x) ==> s.contains(x),
    decreases s.len(),
{
    if s.len() > 0 {
        let d = s.drop_last();
        assert(is_oldest_first(d)) by {
            assert forall|i: int, j: int| 0 <= i < j < d.len() implies is_later(
                #[trigger] d[j],
                #[trigger] d[i],
            ) by {
                assert(d[i] == s[i] && d[j] == s[j]);
            }
        }
        lemma_without_work_sorted(d, w);
        let r = without_work(d, w);
        assert forall|x: Event| r.contains(x) implies s.contains(x) by {
            assert(d.contains(x));
            let i = choose|i: int| 0 <= i < d.len() && d[i] == x;
            assert(s[i] == x);
        }
        if s.last().work_id != w {
            let r2 = r.push(s.last());
            assert forall|i: int, j: int| 0 <= i < j < r2.len() implies is_later(
                #[trigger] r2[j],
                #[trigger] r2[i],
            ) by {
                if j == r.len() {
                    assert(r2[i] == r[i]);
                    assert(r.contains(r2[i]));
                    assert(d.contains(r2[i]));
                    let k = choose|k: int| 0 <= k < d.len() && d[k] == r2[i];
                    assert(s[k] == r2[i]);
                    assert(is_later(s[s.len() - 1], s[k]));
                } else {
                    assert(r2[i] == r[i] && r2[j] == r[j]);
                }
            }
            assert forall|x: Event| r2.contains(x) implies s.contains(x) by {
                if x != s.last() {
                    let i = choose|i: int| 0 <= i < r2.len() && r2[i] == x;
                    assert(r.contains(r[i]));
                } else {
                    assert(s[s.len() - 1] == x);
                }
            }
        }
    }
}

/// Removing a work-item together with all of its events keeps the invariant.
pub proof fn lemma_delete_wf(v: LogView, works: Seq<i32>, w: i32)
    requires
        v.wf(),
        works.no_duplicates(),
        forall|x: i32| works.contains(x) <==> (v.works.contains(x) && x != w),
    ensures
        (LogView { works, events: without_work(v.events, w), ..v }).wf(),
{
    let n = LogView { works, events: without_work(v.events, w), ..v };
    lemma_without_work_sorted(v.events, w);
    assert forall|i: int| 0 <= i < n.events.len() implies (#[trigger] n.events[i]).id < n.next_id
        && n.events[i].created_at <= n.clock by {
        assert(n.events.contains(n.events[i]));
        assert(v.events.contains(n.events[i]));
    }
    assert forall|x: i32| #[trigger] n.history(x) == (if x == w {
        Seq::<Event>::empty()
    } else {
        v.history(x)
    }) by {
        lemma_without_work_history(v.events, w, x);
    }
    assert forall|x: i32| #[trigger] n.works.contains(x) <==> n.history(x).len() > 0 by {
        assert(n.history(x) == v.history(x) || x == w);
        assert(v.works.contains(x) <==> v.history(x).len() > 0);
    }
    assert forall|x: i32| #[trigger] is_path(n.history(x)) by {
        assert(is_path(v.history(x)));
    }
    assert forall|x: i32| #[trigger] is_newest_first(n.history(x)) by {
        assert(is_newest_first(v.history(x)));
    }
}

/// An in-memory event log: the work-items it knows and their events, in the
/// order in which they were appended.
pub struct EventStore {
    works: Vec<i32>,
    events: Vec<Event>,
    next_id: i32,
    clock: i64,
}

impl View for EventStore {
    type V = LogView;

    closed spec fn view(&self) -> LogView {
        LogView {
            works: self.works@,
            events: self.events@,
            next_id: self.next_id as int,
            clock: self.clock as int,
        }
    }
}

impl EventStore {
    /// The store's invariant.
    pub open spec fn wf(&self) -> bool {
        self@.wf()
    }

    /// An empty store.
    pub fn new() -> (r: EventStore)
        ensures
            r.wf(),
            r@.works.len() == 0,
            r@.events.len() == 0,
            r@.next_id == 1,
    {
        let r = EventStore { works: Vec::new(), events: Vec::new(), next_id: 1, clock: i64::MIN };
        assert forall|w: i32| #[trigger] r@.history(w) == Seq::<Event>::empty() by {
            reveal(newest_first);
        }
        r
    }

    /// The position of work-item `w` among the known ones.
    pub(crate) fn find_work_index(&self, w: i32) -> (r: Option<usize>)
        ensures
            match r {
                Some(i) => i < self@.works.len() && self@.works[i as int] == w,
                None => !self@.works.contains(w),
            },
    {
        let mut i: usize = 0;
        while i < self.works.len()
            invariant
                i <= self.works.len(),
                forall|k: int| 0 <= k < i ==> self.works@[k] != w,
            decreases self.works.len() - i,
        {
            if self.works[i] == w {
                return Some(i);
            }
            i += 1;
        }
        None
    }

    /// Whether work-item `w` is known.
    pub fn contains_work(&self, w: i32) -> (r: bool)
        ensures
            r == self@.works.contains(w),
    {
        self.find_work_index(w).is_some()
    }

    /// The events of work-item `w`, newest first.
    fn history(&self, w: i32) -> (r: Vec<Event>)
        ensures
            r@ == self@.history(w),
    {
        let mut r: Vec<Event> = Vec::new();
        let mut i: usize = self.events.len();
        assert(self.events@.subrange(0, i as int) =~= self.events@);
        assert(r@ + newest_first(self.events@, w) =~= newest_first(self.events@, w));
        while i > 0
            invariant
                i <= self.events.len(),
                r@ + newest_first(self.events@.subrange(0, i as int), w) == newest_first(
                    self.events@,
                    w,
                ),
            decreases i,
        {
            let ghost before = r@;
            let ghost rest = newest_first(self.events@.subrange(0, i - 1), w);
            proof {
                reveal(newest_first);
                assert(self.events@.subrange(0, i as int).drop_last() =~= self.events@.subrange(
                    0,
                    i - 1,
                ));
            }
            i -= 1;
            let e = self.events[i];
            if e.work_id == w {
                r.push(e);
                assert(before + (seq![e] + rest) =~= r@ + rest);
            }
        }
        proof {
            reveal(newest_first);
            assert(r@ + Seq::<Event>::empty() =~= r@);
        }
        r
    }

    /// The most recent event of work-item `w`.
    fn latest_of(&self, w: i32) -> (r: Option<Event>)
        ensures
            r == self@.latest(w),
    {
        let mut i: usize = self.events.len();
        assert(self.events@.subrange(0, i as int) =~= self.events@);
        while i > 0
            invariant
                i <= self.events.len(),
                newest_first(self.events@.subrange(0, i as int), w) == newest_first(
                    self.events@,
                    w,
                ),
            decreases i,
        {
            proof {
                reveal(newest_first);
                assert(self.events@.subrange(0, i as int).drop_last() =~= self.events@.subrange(
                    0,
                    i - 1,
                ));
            }
            i -= 1;
            let e = self.events[i];
            if e.work_id == w {
                return Some(e);
            }
        }
        proof {
            reveal(newest_first);
        }
        None
    }

    /// The most recent event of work-item `work_id`: `NotFound` for an
    /// unknown work-item, nothing when it has no events.
    pub fn latest(&self, work_id: i32) -> (r: Result<Option<Event>, LifecycleError>)
        ensures
            r == (if self@.works.contains(work_id) {
                Ok(self@.latest(work_id))
            } else {
                Err(LifecycleError::NotFound)
            }),
    {
        if self.contains_work(work_id) {
            Ok(self.latest_of(work_id))
        } else {
            Err(LifecycleError::NotFound)
        }
    }

    /// All events of work-item `work_id`, newest first, or `NotFound`.
    pub fn all(&self, work_id: i32) -> (r: Result<Vec<Event>, LifecycleError>)
        requires
            self.wf(),
        ensures
            match r {
                Ok(h) => self@.works.contains(work_id) && h@ == self@.history(work_id)
                    && is_newest_first(h@),
                Err(e) => !self@.works.contains(work_id) && e == LifecycleError::NotFound,
            },
    {
        if self.contains_work(work_id) {
            Ok(self.history(work_id))
        } else {
            Err(LifecycleError::NotFound)
        }
    }

    /// Every event of every work-item, newest first.
    pub fn all_global(&self) -> (r: Vec<Event>)
        requires
            self.wf(),
        ensures
            r@ == self@.events.reverse(),
            is_newest_first(r@),
    {
        let mut r: Vec<Event> = Vec::new();
        let mut i: usize = self.events.len();
        while i > 0
            invariant
                i <= self.events.len(),
                r@.len() == self.events.len() - i,
                forall|k: int| 0 <= k < r@.len() ==> r@[k] == self.events@[self.events.len() - 1 - k],
            decreases i,
        {
            i -= 1;
            r.push(self.events[i]);
        }
        assert(r@ =~= self@.events.reverse());
        assert forall|a: int, b: int| 0 <= a < b < r@.len() implies is_later(
            #[trigger] r@[a],
            #[trigger] r@[b],
        ) by {
            let n = self.events@.len();
            assert(is_later(self.events@[n - 1 - a], self.events@[n - 1 - b]));
        }
        r
    }

    /// The current state of work-item `work_id`: its latest event's state and time.
    pub fn current_state(&self, work_id: i32) -> (r: Result<CurrentState, LifecycleError>)
        ensures
            r == self@.current_state(work_id),
    {
        if !self.contains_work(work_id) {
            return Err(LifecycleError::NotFound);
        }
        match self.latest_of(work_id) {
            None => Err(LifecycleError::NoCurrentState),
            Some(e) => Ok(CurrentState { state: e.current_state, transitioned_at: e.created_at }),
        }
    }
}

impl EventStore {
    /// The id that the next event gets.
    pub(crate) fn next_id(&self) -> (r: i32)
        ensures
            r == self@.next_id,
    {
        self.next_id
    }

    /// Records event `(w, previous_state, current_state)` with the next id and a
    /// timestamp no earlier than `now` nor than any one issued before.
    pub(crate) fn append(
        &mut self,
        w: i32,
        previous_state: Option<State>,
        current_state: State,
        now: i64,
    ) -> (r: Event)
        requires
            old(self)@.next_id < i32::MAX,
        ensures
            r == old(self)@.next_event(w, previous_state, current_state, now),
            final(self)@ == old(self)@.with_event(r),
    {
        let created_at: i64 = if now > self.clock {
            now
        } else {
            self.clock
        };
        let e = Event { id: self.next_id, work_id: w, previous_state, current_state, created_at };
        self.events.push(e);
        self.next_id = self.next_id + 1;
        self.clock = created_at;
        e
    }

    /// Makes work-item `w` known.
    pub(crate) fn add_work(&mut self, w: i32)
        ensures
            final(self)@ == (LogView { works: old(self)@.works.push(w), ..old(self)@ }),
    {
        self.works.push(w);
    }

    /// Forgets the work-item at position `i`.
    pub(crate) fn remove_work_at(&mut self, i: usize)
        requires
            i < old(self)@.works.len(),
        ensures
            final(self)@ == (LogView { works: old(self)@.works.remove(i as int), ..old(self)@ }),
    {
        self.works.remove(i);
    }

    /// Removes every event of work-item `w`, keeping the others in order.
    pub(crate) fn delete_all(&mut self, w: i32)
        ensures
            final(self)@ == (LogView { events: without_work(old(self)@.events, w), ..old(self)@ }),
    {
        let mut kept: Vec<Event> = Vec::new();
        let mut i: usize = 0;
        while i < self.events.len()
            invariant
                i <= self.events.len(),
                kept@ == without_work(self.events@.subrange(0, i as int), w),
            decreases self.events.len() - i,
        {
            assert(self.events@.subrange(0, i + 1).drop_last() =~= self.events@.subrange(
                0,
                i as int,
            ));
            let e = self.events[i];
            if e.work_id != w {
                kept.push(e);
            }
            i += 1;
        }
        assert(self.events@.subrange(0, i as int) =~= self.events@);
        self.events = kept;
    }
}

} // verus!
