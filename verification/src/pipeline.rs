//! The flush worker's control loop as a state machine. The worker takes
//! batches off the group-commit queue, seals each into an object with the
//! next number of a counter, writes up to the in-flight limit of objects at
//! once, and hands finished objects to the sequencer strictly in the order
//! they were sealed. [`flush_step`] makes every decision of that loop; the
//! caller performs the action it returns (a queue take, a write, a commit, a
//! poll) and reports what happened as the next event.
use crate::engine::{inflight_limit, object_key_text, FlushConfig};
use crate::text::{decimal, lemma_zero_pad_decimal_injective, push_decimal_padded, push_str, zero_pad};
use vstd::prelude::*;

verus! {

/// What happened since the last step.
#[derive(Clone, Copy, Debug, PartialEq, Eq, Structural)]
pub enum FlushEvent {
    /// The last action was carried out (or the loop is starting).
    Resume,
    /// A take handed over a non-empty batch.
    BatchTaken,
    /// A take found nothing to flush.
    QueueEmpty,
    /// A take found the queue empty and the engine shutting down.
    QueueShutdown,
    /// The write of object `counter` finished, successfully or not.
    PutFinished { counter: u64, ok: bool },
    /// A poll found no write finished.
    Idle,
}

/// What the worker does next.
#[derive(Clone, Debug)]
pub enum FlushAction {
    /// Take a batch off the queue, waiting for one only when nothing is in
    /// flight.
    TakeBatch { wait_for_more: bool },
    /// Seal the batch just taken as object number `counter` under `key` and
    /// start writing it.
    StartPut { counter: u64, key: String },
    /// Finish object `counter`, the oldest sealed one, whose write has
    /// ended: commit it if the write succeeded, then release its bytes.
    Finish { counter: u64, write_ok: bool },
    /// Wait for writes in flight.
    Poll,
    /// Everything is flushed and the engine is shutting down.
    Stop,
}

/// The worker's state: the key prefix, how many objects were sealed, the
/// unfinished objects in seal order (`None` while the write is in flight,
/// then whether it succeeded), how many writes are in flight and may be,
/// whether the queue reported shutdown, and whether the worker is in the
/// taking phase of a round.
pub struct FlushLoopState {
    prefix: String,
    sealed: u64,
    pending: Vec<Option<bool>>,
    active: usize,
    max_inflight: usize,
    shutdown: bool,
    taking: bool,
}

/// The number of writes in flight among `pending`.
pub open spec fn in_flight(pending: Seq<Option<bool>>) -> nat
    decreases pending.len(),
{
    if pending.len() == 0 {
        0
    } else {
        in_flight(pending.drop_last()) + if pending.last() is None {
            1nat
        } else {
            0nat
        }
    }
}

/// `pending` once `event` is recorded, with `sealed` objects sealed so far:
/// a finished write marks its object, if that object is still unfinished.
pub open spec fn pending_after(pending: Seq<Option<bool>>, sealed: u64, event: FlushEvent) -> Seq<
    Option<bool>,
> {
    match event {
        FlushEvent::PutFinished { counter, ok } => {
            let i = counter - (sealed - pending.len()) - 1;
            if 0 <= i < pending.len() && pending[i] is None {
                pending.update(i, Some(ok))
            } else {
                pending
            }
        },
        _ => pending,
    }
}

/// Whether the worker is in its taking phase once `event` is recorded.
pub open spec fn taking_after(taking: bool, event: FlushEvent) -> bool {
    match event {
        FlushEvent::QueueEmpty => false,
        FlushEvent::Idle => true,
        _ => taking,
    }
}

/// Whether the queue has reported shutdown once `event` is recorded.
pub open spec fn shutdown_after(shutdown: bool, event: FlushEvent) -> bool {
    shutdown || event == FlushEvent::QueueShutdown
}

/// The next action: take while in the taking phase (a new round starts
/// whenever nothing is unfinished), not shut down and under the in-flight
/// limit; otherwise finish the oldest object once its write has ended; stop
/// when nothing is unfinished; else wait for writes.
pub open spec fn next_action(
    taking: bool,
    shutdown: bool,
    pending: Seq<Option<bool>>,
    sealed: u64,
    max_inflight: usize,
) -> FlushAction {
    if (taking || pending.len() == 0) && !shutdown && in_flight(pending) < max_inflight {
        FlushAction::TakeBatch { wait_for_more: pending.len() == 0 }
    } else if pending.len() > 0 && pending[0] is Some {
        FlushAction::Finish {
            counter: (sealed - pending.len() + 1) as u64,
            write_ok: pending[0] == Some(true),
        }
    } else if pending.len() == 0 {
        FlushAction::Stop
    } else {
        FlushAction::Poll
    }
}

proof fn lemma_in_flight_push(s: Seq<Option<bool>>, x: Option<bool>)
    ensures
        in_flight(s.push(x)) == in_flight(s) + if x is None {
            1nat
        } else {
            0nat
        },
{
    assert(s.push(x).drop_last() =~= s);
}

proof fn lemma_in_flight_mark(s: Seq<Option<bool>>, i: int, b: bool)
    requires
        0 <= i < s.len(),
        s[i] is None,
    ensures
        in_flight(s) >= 1,
        in_flight(s.update(i, Some(b))) == in_flight(s) - 1,
    decreases s.len(),
{
    if i == s.len() - 1 {
        assert(s.update(i, Some(b)).drop_last() =~= s.drop_last());
    } else {
        lemma_in_flight_mark(s.drop_last(), i, b);
        assert(s.update(i, Some(b)).drop_last() =~= s.drop_last().update(i, Some(b)));
    }
}

proof fn lemma_in_flight_drop_finished(s: Seq<Option<bool>>)
    requires
        s.len() > 0,
        s[0] is Some,
    ensures
        in_flight(s.drop_first()) == in_flight(s),
    decreases s.len(),
{
    if s.len() == 1 {
        assert(s.drop_first().len() == 0);
        assert(s.drop_last().len() == 0);
        assert(in_flight(s.drop_last()) == 0);
        assert(s.last() is Some);
    } else {
        lemma_in_flight_drop_finished(s.drop_last());
        assert(s.drop_first().drop_last() =~= s.drop_last().drop_first());
        assert(s.drop_first().last() == s.last());
    }
}

impl FlushLoopState {
    /// The key prefix of flushed objects.
    pub closed spec fn prefix(&self) -> Seq<char> {
        self.prefix@
    }

    /// How many objects were sealed.
    pub closed spec fn sealed(&self) -> u64 {
        self.sealed
    }

    /// The unfinished objects in seal order: `None` while the write is in
    /// flight, then whether it succeeded.
    pub closed spec fn pending(&self) -> Seq<Option<bool>> {
        self.pending@
    }

    /// How many objects were finished (all of those sealed first).
    pub open spec fn finished(&self) -> int {
        self.sealed() - self.pending().len()
    }

    /// How many writes may be in flight at once.
    pub closed spec fn max_inflight(&self) -> usize {
        self.max_inflight
    }

    /// Whether the queue reported shutdown.
    pub closed spec fn is_shut_down(&self) -> bool {
        self.shutdown
    }

    /// Whether the worker is in the taking phase of a round.
    pub closed spec fn taking(&self) -> bool {
        self.taking
    }

    /// The state invariant: the in-flight count is that of `pending`, at
    /// least one write may be in flight and no more than the limit are, and
    /// every unfinished object was sealed.
    pub closed spec fn wf(&self) -> bool {
        &&& self.active == in_flight(self.pending@)
        &&& 1 <= self.max_inflight
        &&& self.active <= self.max_inflight
        &&& self.pending@.len() <= self.sealed
    }

    /// The in-flight law: in every state the steps reach, no more writes
    /// are in flight than the limit allows, and every unfinished object is
    /// one of those sealed.
    pub proof fn lemma_in_flight_bounded(&self)
        requires
            self.wf(),
        ensures
            in_flight(self.pending()) <= self.max_inflight(),
            1 <= self.max_inflight(),
            0 <= self.finished() <= self.sealed(),
    {
    }

    /// A worker that has sealed nothing, for objects keyed under `prefix`,
    /// with the configured in-flight limit (at least one).
    pub fn new(config: &FlushConfig, prefix: String) -> (s: Self)
        ensures
            s.wf(),
            s.prefix() == prefix@,
            s.sealed() == 0,
            s.pending().len() == 0,
            s.max_inflight() == if config.max_inflight_flushes >= 1 {
                config.max_inflight_flushes
            } else {
                1
            },
            !s.is_shut_down(),
            s.taking(),
    {
        FlushLoopState {
            prefix,
            sealed: 0,
            pending: Vec::new(),
            active: 0,
            max_inflight: inflight_limit(config),
            shutdown: false,
            taking: true,
        }
    }

    /// Whether a taken batch can be sealed now: a write slot is free and
    /// the object counter has a next number.
    pub fn can_seal(&self) -> (r: bool)
        requires
            self.wf(),
        ensures
            r == (in_flight(self.pending()) < self.max_inflight() && self.sealed() < u64::MAX),
    {
        self.active < self.max_inflight && self.sealed < u64::MAX
    }
}

/// The commit-order law: whenever the worker finishes an object, it is the
/// oldest unfinished one, numbered right after the last finished object,
/// and its write has ended; with nothing unfinished it stops only after the
/// queue reported shutdown.
pub proof fn lemma_finish_in_seal_order(
    taking: bool,
    shutdown: bool,
    pending: Seq<Option<bool>>,
    sealed: u64,
    max_inflight: usize,
)
    requires
        pending.len() <= sealed,
        1 <= max_inflight,
    ensures
        next_action(taking, shutdown, pending, sealed, max_inflight) matches FlushAction::Finish {
            counter,
            write_ok,
        } ==> counter == sealed - pending.len() + 1 && pending[0] == Some(write_ok),
        next_action(taking, shutdown, pending, sealed, max_inflight) is Stop ==> shutdown
            && pending.len() == 0,
        next_action(taking, shutdown, pending, sealed, max_inflight) is TakeBatch ==> !shutdown
            && in_flight(pending) < max_inflight,
{
}

/// What one step does, from state `s0` on `event` to `action` and state
/// `s1`: a taken batch is sealed at once as the next object, keyed
/// `{prefix}{counter:020}`; every other event is recorded and the next
/// action is [`next_action`] of the resulting state, finishing the oldest
/// object when it is the one chosen.
pub open spec fn step_relation(
    s0: FlushLoopState,
    event: FlushEvent,
    action: FlushAction,
    s1: FlushLoopState,
) -> bool {
    &&& s1.wf()
    &&& s1.prefix() == s0.prefix()
    &&& s1.max_inflight() == s0.max_inflight()
    &&& event is BatchTaken ==> {
        &&& s1.sealed() == s0.sealed() + 1
        &&& s1.pending() == s0.pending().push(None)
        &&& s1.taking() == s0.taking()
        &&& s1.is_shut_down() == s0.is_shut_down()
        &&& action matches FlushAction::StartPut { counter, key } && counter == s1.sealed()
            && key@ == object_key_text(s0.prefix(), counter)
    }
    &&& !(event is BatchTaken) ==> {
        let mp = pending_after(s0.pending(), s0.sealed(), event);
        let mt = taking_after(s0.taking(), event);
        let ms = shutdown_after(s0.is_shut_down(), event);
        &&& action == next_action(mt, ms, mp, s0.sealed(), s0.max_inflight())
        &&& s1.sealed() == s0.sealed()
        &&& s1.is_shut_down() == ms
        &&& s1.taking() == (mt || mp.len() == 0)
        &&& s1.pending() == if action is Finish {
            mp.drop_first()
        } else {
            mp
        }
    }
}

/// How many objects a run of actions started writing.
pub open spec fn starts_in(actions: Seq<FlushAction>) -> nat
    decreases actions.len(),
{
    if actions.len() == 0 {
        0
    } else {
        starts_in(actions.drop_last()) + if actions.last() is StartPut {
            1nat
        } else {
            0nat
        }
    }
}

/// How many objects a run of actions finished.
pub open spec fn finishes_in(actions: Seq<FlushAction>) -> nat
    decreases actions.len(),
{
    if actions.len() == 0 {
        0
    } else {
        finishes_in(actions.drop_last()) + if actions.last() is Finish {
            1nat
        } else {
            0nat
        }
    }
}

/// Whether `states`, `events` and `actions` are a run of the worker from a
/// fresh state: each action and next state come from the step before.
pub open spec fn is_run(states: Seq<FlushLoopState>, events: Seq<FlushEvent>, actions: Seq<FlushAction>) -> bool {
    &&& states.len() == events.len() + 1
    &&& actions.len() == events.len()
    &&& states[0].wf()
    &&& states[0].sealed() == 0
    &&& states[0].pending().len() == 0
    &&& forall|i: int|
        0 <= i < events.len() ==> #[trigger] step_relation(states[i], events[i], actions[i], states[i + 1])
}

proof fn lemma_run_counts(states: Seq<FlushLoopState>, events: Seq<FlushEvent>, actions: Seq<FlushAction>, k: int)
    requires
        is_run(states, events, actions),
        0 <= k <= events.len(),
    ensures
        states[k].sealed() == starts_in(actions.take(k)),
        states[k].finished() == finishes_in(actions.take(k)),
        states[k].prefix() == states[0].prefix(),
        states[k].wf(),
    decreases k,
{
    if k > 0 {
        let j = k - 1;
        lemma_run_counts(states, events, actions, j);
        assert(step_relation(states[j], events[j], actions[j], states[j + 1]));
        assert(actions.take(k).drop_last() =~= actions.take(j));
        assert(actions.take(k).last() == actions[j]);
    } else {
        assert(actions.take(0).len() == 0);
    }
}

proof fn lemma_starts_monotone(actions: Seq<FlushAction>, a: int, b: int)
    requires
        0 <= a <= b <= actions.len(),
    ensures
        starts_in(actions.take(a)) <= starts_in(actions.take(b)),
        a < b && actions[a] is StartPut ==> starts_in(actions.take(a)) < starts_in(actions.take(b)),
    decreases b - a,
{
    if a < b {
        lemma_starts_monotone(actions, a, b - 1);
        assert(actions.take(b).drop_last() =~= actions.take(b - 1));
        if a == b - 1 {
            assert(actions.take(b).last() == actions[a]);
        }
    }
}

/// Objects keyed with distinct counters have distinct keys.
pub proof fn lemma_object_keys_distinct(prefix: Seq<char>, a: u64, b: u64)
    requires
        a != b,
    ensures
        object_key_text(prefix, a) != object_key_text(prefix, b),
{
    if object_key_text(prefix, a) == object_key_text(prefix, b) {
        assert(object_key_text(prefix, a).skip(prefix.len() as int) =~= zero_pad(decimal(a as nat), 20));
        assert(object_key_text(prefix, b).skip(prefix.len() as int) =~= zero_pad(decimal(b as nat), 20));
        lemma_zero_pad_decimal_injective(a as nat, b as nat, 20);
    }
}

/// The run law: over any run of the worker, the k-th object it starts
/// writing is number k, keyed `{prefix}{k:020}`, so no two objects share a
/// key; and the k-th object it finishes (and commits, when its write
/// succeeded) is number k, one it started earlier, so objects are finished
/// one at a time in the order they were sealed, none skipped.
pub proof fn lemma_flush_run(states: Seq<FlushLoopState>, events: Seq<FlushEvent>, actions: Seq<FlushAction>)
    requires
        is_run(states, events, actions),
    ensures
        forall|i: int|
            0 <= i < actions.len() ==> (#[trigger] actions[i] matches FlushAction::StartPut { counter, key }
                ==> counter == starts_in(actions.take(i)) + 1 && key@ == object_key_text(
                states[0].prefix(),
                counter,
            )),
        forall|i: int|
            0 <= i < actions.len() ==> (#[trigger] actions[i] matches FlushAction::Finish { counter, .. }
                ==> counter == finishes_in(actions.take(i)) + 1 && counter <= starts_in(actions.take(i))),
        forall|i: int, j: int|
            0 <= i < j < actions.len() && #[trigger] actions[i] is StartPut && #[trigger] actions[j] is StartPut
                ==> actions[i]->key@ != actions[j]->key@,
{
    assert forall|i: int| 0 <= i < actions.len() implies (#[trigger] actions[i] matches FlushAction::StartPut {
        counter,
        key,
    } ==> counter == starts_in(actions.take(i)) + 1 && key@ == object_key_text(states[0].prefix(), counter)) by {
        lemma_run_counts(states, events, actions, i);
        lemma_run_counts(states, events, actions, i + 1);
        assert(step_relation(states[i], events[i], actions[i], states[i + 1]));
    }
    assert forall|i: int| 0 <= i < actions.len() implies (#[trigger] actions[i] matches FlushAction::Finish {
        counter,
        ..
    } ==> counter == finishes_in(actions.take(i)) + 1 && counter <= starts_in(actions.take(i))) by {
        lemma_run_counts(states, events, actions, i);
        assert(step_relation(states[i], events[i], actions[i], states[i + 1]));
    }
    assert forall|i: int, j: int|
        0 <= i < j < actions.len() && #[trigger] actions[i] is StartPut && #[trigger] actions[j] is StartPut implies actions[i]->key@
            != actions[j]->key@ by {
        {
            lemma_run_counts(states, events, actions, i);
            lemma_run_counts(states, events, actions, i + 1);
            lemma_run_counts(states, events, actions, j);
            lemma_run_counts(states, events, actions, j + 1);
            assert(step_relation(states[i], events[i], actions[i], states[i + 1]));
            assert(step_relation(states[j], events[j], actions[j], states[j + 1]));
            lemma_starts_monotone(actions, i, j);
            let ci = actions[i]->StartPut_counter;
            let cj = actions[j]->StartPut_counter;
            assert(ci == states[i + 1].sealed());
            assert(cj == states[j + 1].sealed());
            assert(ci == starts_in(actions.take(i)) + 1);
            assert(cj == starts_in(actions.take(j)) + 1);
            assert(ci < cj);
            assert(states[i].prefix() == states[0].prefix());
            assert(states[j].prefix() == states[0].prefix());
            assert(actions[i]->key@ == object_key_text(states[0].prefix(), ci));
            assert(actions[j]->key@ == object_key_text(states[0].prefix(), cj));
            lemma_object_keys_distinct(states[0].prefix(), ci, cj);
        }
    }
}

/// One step of the flush worker: record `event`, then decide the next
/// action (see [`step_relation`]).
pub fn flush_step(state: &mut FlushLoopState, event: FlushEvent) -> (action: FlushAction)
    requires
        old(state).wf(),
        event is BatchTaken ==> in_flight(old(state).pending()) < old(state).max_inflight()
            && old(state).sealed() < u64::MAX,
    ensures
        step_relation(*old(state), event, action, *final(state)),
{
    let ghost p0 = state.pending@;
    match event {
        FlushEvent::BatchTaken => {
            proof {
                lemma_in_flight_push(p0, None);
            }
            state.sealed = state.sealed + 1;
            state.pending.push(None);
            state.active = state.active + 1;
            let counter = state.sealed;
            let mut key = String::new();
            push_str(&mut key, state.prefix.as_str());
            push_decimal_padded(&mut key, counter, 20);
            return FlushAction::StartPut { counter, key };
        },
        FlushEvent::QueueEmpty => {
            state.taking = false;
        },
        FlushEvent::QueueShutdown => {
            state.shutdown = true;
        },
        FlushEvent::Idle => {
            state.taking = true;
        },
        FlushEvent::Resume => {},
        FlushEvent::PutFinished { counter, ok } => {
            let len = state.pending.len();
            let done = state.sealed - len as u64;
            if counter > done && counter - done <= len as u64 {
                let i = (counter - done - 1) as usize;
                if state.pending[i].is_none() {
                    proof {
                        lemma_in_flight_mark(p0, i as int, ok);
                    }
                    state.pending.set(i, Some(ok));
                    state.active = state.active - 1;
                }
            }
        },
    }
    let ghost mp = state.pending@;
    assert(mp == pending_after(p0, old(state).sealed(), event));
    if state.pending.len() == 0 {
        state.taking = true;
    }
    if state.taking && !state.shutdown && state.active < state.max_inflight {
        return FlushAction::TakeBatch { wait_for_more: state.pending.len() == 0 };
    }
    if state.pending.len() > 0 {
        match state.pending[0] {
            Some(ok) => {
                let counter = state.sealed - state.pending.len() as u64 + 1;
                proof {
                    lemma_in_flight_drop_finished(mp);
                }
                state.pending.remove(0);
                assert(state.pending@ =~= mp.drop_first());
                return FlushAction::Finish { counter, write_ok: ok };
            },
            None => {
                return FlushAction::Poll;
            },
        }
    }
    FlushAction::Stop
}

} // verus!
