//! What a task and the wakers of its futures do together.
//!
//! A [`ledger`](crate::ledger) says what the task does to the slots of its futures. Between,
//! before and after these acts the wakers do theirs: they wake slots, and nothing else. What
//! is shown here holds of every sequence of acts that comes about in this way.
use crate::group_handshake;
use crate::group_ledger;
use crate::group_ledger::GroupNote;
use crate::handshake;
use crate::ledger;
use crate::ledger::Note;
use crate::progress;
use crate::progress::{Gives, PollEvent, Progress};
use crate::slot_wakers;
use crate::slot_wakers::SlotLock;
use crate::slots::{Act, Dequeue, SlotState};
use crate::task;
use crate::wake_groups;
use crate::wake_groups::{GroupLock, SharedState, Visit};
use std::task::{Poll, Waker};
use vstd::prelude::*;

verus! {

/// Whether `acts` lead from each of the states to the next, and are what a task does, as
/// `notes` say, together with any wake-ups. What note `m` is of is done as act `at[m]`.
pub open spec fn interleaves(
    states: Seq<SlotState<Waker>>,
    acts: Seq<Act<Waker>>,
    notes: Seq<Note>,
    at: Seq<int>,
) -> bool {
    &&& handshake::history(states, acts)
    &&& forall|k: int| 0 <= k < states.len() ==> (#[trigger] states[k]).wf()
    &&& at.len() == notes.len()
    &&& forall|m: int|
        0 <= m < notes.len() ==> (#[trigger] notes[m] matches Note::Did { before, act, after }
            ==> 0 <= at[m] < acts.len() && acts[at[m]] == act && states[at[m]] == before
            && states[at[m] + 1] == after)
    &&& forall|m: int, n: int|
        0 <= m < n < notes.len() && #[trigger] notes[m] is Did && #[trigger] notes[n] is Did
            ==> at[m] < at[n]
    &&& forall|k: int|
        0 <= k < acts.len() && !(#[trigger] acts[k] is Wake) ==> exists|m: int|
            0 <= m < notes.len() && #[trigger] notes[m] is Did && at[m] == k
}

/// Where the futures from `from` on were never polled, the slots are readied for their first
/// polls one after the other.
proof fn lemma_unpolled(
    states: Seq<SlotState<Waker>>,
    acts: Seq<Act<Waker>>,
    from: int,
    n: int,
)
    requires
        handshake::history(states, acts),
        0 <= n <= acts.len(),
        states[0].unpolled <= from,
    ensures
        states[n].unpolled <= from || exists|k: int|
            0 <= k < n && (#[trigger] acts[k] matches Act::Start(j) && states[n].unpolled == j + 1),
    decreases n,
{
    if n > 0 {
        lemma_unpolled(states, acts, from, n - 1);
        assert(states[n - 1].done(acts[n - 1], states[n]));
        match acts[n - 1] {
            Act::Start(j) => {
                if states[n - 1].unpolled <= j {
                    assert(acts[n - 1] is Start);
                }
            },
            _ => {
                assert(states[n].unpolled == states[n - 1].unpolled);
            },
        }
    }
}

/// A poll is noted.
proof fn lemma_poll_noted(notes: Seq<Note>, k: int)
    requires
        0 <= k < ledger::polls_of(notes).len(),
    ensures
        exists|m: int|
            0 <= m < notes.len() && #[trigger] ledger::polls(
                notes[m],
                ledger::polls_of(notes)[k].0,
            ),
    decreases notes.len(),
{
    let earlier = notes.drop_last();
    let all = ledger::polls_of(notes);
    if k < ledger::polls_of(earlier).len() {
        lemma_poll_noted(earlier, k);
        let m = choose|m: int|
            0 <= m < earlier.len() && #[trigger] ledger::polls(
                earlier[m],
                ledger::polls_of(earlier)[k].0,
            );
        assert(ledger::polls(notes[m], all[k].0));
    } else {
        assert(ledger::polls(notes[notes.len() - 1], all[k].0));
    }
}

/// A slot that is readied for the first poll of its future is one that was not readied
/// before.
proof fn lemma_start_is_first(
    lock: SlotLock,
    waker: Waker,
    notes: Seq<Note>,
    turns: Seq<(int, bool)>,
    pending: Seq<bool>,
    idle: bool,
    from: int,
    to: int,
    states: Seq<SlotState<Waker>>,
    acts: Seq<Act<Waker>>,
    at: Seq<int>,
    m: int,
    i: int,
)
    requires
        ledger::kept(lock, waker, notes, turns, pending, idle, from, to),
        interleaves(states, acts, notes, at),
        states[0].unpolled <= from,
        0 <= m < notes.len(),
        ledger::starts(notes[m]) == Some(i),
    ensures
        states[at[m]].unpolled <= i,
{
    reveal(ledger::kept);
    lemma_unpolled(states, acts, from, at[m]);
    if states[at[m]].unpolled > from {
        let k = choose|k: int|
            0 <= k < at[m] && (#[trigger] acts[k] matches Act::Start(j) && states[at[m]].unpolled
                == j + 1);
        let n = choose|n: int| 0 <= n < notes.len() && #[trigger] notes[n] is Did && at[n] == k;
        assert(ledger::starts(notes[n]) is Some);
        if m < n {
            assert(at[m] < at[n]);
        }
        assert(ledger::starts(notes[n])->0 < i);
    }
}

/// From the time when all that the task does was done, the slot of a future that was polled
/// and has not completed is active.
proof fn lemma_active_from(
    lock: SlotLock,
    waker: Waker,
    notes: Seq<Note>,
    turns: Seq<(int, bool)>,
    pending: Seq<bool>,
    idle: bool,
    from: int,
    to: int,
    states: Seq<SlotState<Waker>>,
    acts: Seq<Act<Waker>>,
    at: Seq<int>,
    i: int,
    n: int,
)
    requires
        ledger::kept(lock, waker, notes, turns, pending, idle, from, to),
        interleaves(states, acts, notes, at),
        states[0].len == pending.len(),
        states[0].unpolled <= from,
        0 <= i < pending.len(),
        pending[i],
        states[0].active[i] || exists|k: int| 0 <= k < turns.len() && (#[trigger] turns[k]).0 == i,
        0 <= n < states.len(),
        forall|m: int|
            0 <= m < notes.len() && #[trigger] notes[m] is Did ==> at[m] < n,
    ensures
        i < states[n].len,
        states[n].active[i],
{
    reveal(ledger::kept);
    assert forall|k: int| 0 <= k < n implies match #[trigger] acts[k] {
        Act::Look(_, flags) => flags[i],
        Act::Announce(_, flags) => flags[i],
        Act::Complete(j) => j != i,
        _ => true,
    } by {
        if !(acts[k] is Wake) {
            let m = choose|m: int| 0 <= m < notes.len() && #[trigger] notes[m] is Did && at[m] == k;
            assert(ledger::in_place(lock, waker, notes, pending, idle, m));
            if let Act::Complete(j) = acts[k] {
                lemma_ready_noted(notes, m - 1);
                let t = choose|t: int|
                    0 <= t < turns.len() && #[trigger] turns[t] == (j, true);
                assert(!pending[turns[t].0]);
            }
        }
    }
    if states[0].active[i] {
        handshake::lemma_stays_active(states, acts, 0, n, i);
    } else {
        let t = choose|t: int| 0 <= t < turns.len() && (#[trigger] turns[t]).0 == i;
        lemma_poll_noted(notes, t);
        let m = choose|m: int| 0 <= m < notes.len() && #[trigger] ledger::polls(notes[m], i);
        assert(ledger::in_place(lock, waker, notes, pending, idle, m));
        assert(ledger::readies(notes[m - 1], i));
        assert(notes[m - 1] is Did);
        let k = at[m - 1];
        assert(states[k].done(acts[k], states[k + 1]));
        assert(states[k].wf() && states[k + 1].wf());
        lemma_same_len(states, acts, k);
        match acts[k] {
            Act::Start(j) => {
                lemma_start_is_first(
                    lock,
                    waker,
                    notes,
                    turns,
                    pending,
                    idle,
                    from,
                    to,
                    states,
                    acts,
                    at,
                    m - 1,
                    i,
                );
            },
            Act::Look(result, flags) => {
                let skipped = choose|skipped: Seq<int>| #[trigger]
                    states[k].moved_on(states[k + 1], result, skipped, flags);
                assert(states[k + 1].active[i]);
            },
            _ => {},
        }
        handshake::lemma_stays_active(states, acts, k + 1, n, i);
    }
}

/// The number of slots stays.
proof fn lemma_same_len(states: Seq<SlotState<Waker>>, acts: Seq<Act<Waker>>, n: int)
    requires
        handshake::history(states, acts),
        0 <= n < states.len(),
    ensures
        states[n].len == states[0].len,
    decreases n,
{
    if n > 0 {
        lemma_same_len(states, acts, n - 1);
        assert(states[n - 1].done(acts[n - 1], states[n]));
    }
}

/// A poll by which a future has completed counts among the polls.
proof fn lemma_ready_noted(notes: Seq<Note>, m: int)
    requires
        0 <= m < notes.len(),
        notes[m] is Polled,
    ensures
        exists|t: int|
            0 <= t < ledger::polls_of(notes).len() && #[trigger] ledger::polls_of(notes)[t] == (
                notes[m]->index,
                notes[m]->ready,
            ),
    decreases notes.len(),
{
    let earlier = notes.drop_last();
    let all = ledger::polls_of(notes);
    if m < earlier.len() {
        lemma_ready_noted(earlier, m);
        let t = choose|t: int|
            0 <= t < ledger::polls_of(earlier).len() && #[trigger] ledger::polls_of(earlier)[t] == (
                earlier[m]->index,
                earlier[m]->ready,
            );
        assert(all[t] == ledger::polls_of(earlier)[t]);
    } else {
        assert(all[all.len() - 1] == (notes[m]->index, notes[m]->ready));
    }
}

/// After a call, whatever wakers have done meanwhile, every future that was polled, before or
/// in the call, and has not completed can be woken: its next wake-up puts its slot in the
/// queue, unless it is in it.
pub proof fn lemma_polled_can_be_woken(
    lock: SlotLock,
    waker: Waker,
    notes: Seq<Note>,
    turns: Seq<(int, bool)>,
    pending: Seq<bool>,
    idle: bool,
    from: int,
    to: int,
    states: Seq<SlotState<Waker>>,
    acts: Seq<Act<Waker>>,
    at: Seq<int>,
    i: int,
)
    requires
        ledger::kept(lock, waker, notes, turns, pending, idle, from, to),
        interleaves(states, acts, notes, at),
        states[0].len == pending.len(),
        states[0].unpolled <= from,
        0 <= i < pending.len(),
        pending[i],
        states[0].active[i] || exists|k: int| 0 <= k < turns.len() && (#[trigger] turns[k]).0 == i,
    ensures
        states.last().active[i],
        states.last().woken(i).ready().contains(i),
{
    let n = states.len() - 1;
    lemma_active_from(
        lock,
        waker,
        notes,
        turns,
        pending,
        idle,
        from,
        to,
        states,
        acts,
        at,
        i,
        n,
    );
    assert(states[n].wf());
    states[n].lemma_wake_recorded(i);
}

/// A slot that is taken from the queue, as its future has not completed, is not lost: the
/// future is polled in the same call.
pub proof fn lemma_taken_slot_polled(
    lock: SlotLock,
    waker: Waker,
    notes: Seq<Note>,
    turns: Seq<(int, bool)>,
    pending: Seq<bool>,
    idle: bool,
    from: int,
    to: int,
    states: Seq<SlotState<Waker>>,
    acts: Seq<Act<Waker>>,
    at: Seq<int>,
    k: int,
    i: usize,
)
    requires
        ledger::kept(lock, waker, notes, turns, pending, idle, from, to),
        interleaves(states, acts, notes, at),
        0 <= k < acts.len(),
        acts[k] matches Act::Look(result, _) && result == Dequeue::Data(i),
    ensures
        exists|t: int| 0 <= t < turns.len() && (#[trigger] turns[t]).0 == i,
{
    reveal(ledger::kept);
    let m = choose|m: int| 0 <= m < notes.len() && #[trigger] notes[m] is Did && at[m] == k;
    assert(ledger::in_place(lock, waker, notes, pending, idle, m));
    assert(ledger::polls(notes[m + 1], i as int));
    lemma_ready_noted(notes, m + 1);
    let t = choose|t: int|
        0 <= t < turns.len() && #[trigger] turns[t] == (notes[m + 1]->index, notes[m + 1]->ready);
    assert(turns[t].0 == i);
}

/// A slot that is taken from the queue twice, to poll its future, was woken in between.
pub proof fn lemma_woken_between_polls(
    states: Seq<SlotState<Waker>>,
    acts: Seq<Act<Waker>>,
    j: int,
    k: int,
    i: usize,
)
    requires
        handshake::history(states, acts),
        forall|n: int| 0 <= n < states.len() ==> (#[trigger] states[n]).wf(),
        0 <= j < k < acts.len(),
        acts[j] matches Act::Look(result, _) && result == Dequeue::Data(i),
        acts[k] matches Act::Look(result, _) && result == Dequeue::Data(i),
    ensures
        exists|w: int| j < w < k && #[trigger] acts[w] == Act::<Waker>::Wake(i as int),
{
    assert(states[j].done(acts[j], states[j + 1]));
    assert(states[k].done(acts[k], states[k + 1]));
    assert(states[j].wf() && states[j + 1].wf() && states[k].wf());
    let first = choose|skipped: Seq<int>| #[trigger]
        states[j].moved_on(states[j + 1], Dequeue::Data(i), skipped, acts[j]->Look_1);
    let second = choose|skipped: Seq<int>| #[trigger]
        states[k].moved_on(states[k + 1], Dequeue::Data(i), skipped, acts[k]->Look_1);
    let gone = second.push(i as int);
    assert(states[k].ready()[second.len() as int] == i) by {
        assert(states[k].ready() == gone + states[k + 1].ready());
        assert(gone[second.len() as int] == i);
    }
    assert(states[k].ready().contains(i as int));
    states[j + 1].lemma_no_duplicates();
    assert(!states[j + 1].ready().contains(i as int));
    handshake::lemma_queued_since_woken(states, acts, j + 1, k, i as int);
}

/// After the waker of the task was registered, the call does nothing more to the slots.
proof fn lemma_announced_last(
    lock: SlotLock,
    waker: Waker,
    notes: Seq<Note>,
    turns: Seq<(int, bool)>,
    pending: Seq<bool>,
    from: int,
    to: int,
    states: Seq<SlotState<Waker>>,
    acts: Seq<Act<Waker>>,
    at: Seq<int>,
) -> (copy: Waker)
    requires
        ledger::kept(lock, waker, notes, turns, pending, true, from, to),
        interleaves(states, acts, notes, at),
    ensures
        notes.len() > 0,
        notes.last() is Did,
        0 <= at.last() < acts.len(),
        task::copied(waker, copy),
        handshake::registers_waker(acts[at.last()], copy),
        forall|m: int|
            0 <= m < notes.len() && #[trigger] notes[m] is Did ==> at[m] <= at.last(),
        forall|k: int| at.last() < k < acts.len() ==> #[trigger] acts[k] is Wake,
{
    reveal(ledger::kept);
    let last = notes.len() - 1;
    assert(notes[last] is Did);
    assert forall|m: int| 0 <= m < notes.len() && #[trigger] notes[m] is Did implies at[m]
        <= at.last() by {
        if m < last {
            assert(at[m] < at[last]);
        }
    }
    assert forall|k: int| at.last() < k < acts.len() implies #[trigger] acts[k] is Wake by {
        if !(acts[k] is Wake) {
            let m = choose|m: int| 0 <= m < notes.len() && #[trigger] notes[m] is Did && at[m] == k;
            assert(at[m] <= at.last());
        }
    }
    acts[at.last()]->Announce_0
}

/// After a call that leaves the task idle, the waker that it has registered is still
/// registered, and the next wake-up that has an effect hands it out, unless a wake-up has
/// done so already.
pub proof fn lemma_waker_stays_registered(
    lock: SlotLock,
    waker: Waker,
    notes: Seq<Note>,
    turns: Seq<(int, bool)>,
    pending: Seq<bool>,
    from: int,
    to: int,
    states: Seq<SlotState<Waker>>,
    acts: Seq<Act<Waker>>,
    at: Seq<int>,
)
    requires
        ledger::kept(lock, waker, notes, turns, pending, true, from, to),
        interleaves(states, acts, notes, at),
    ensures
        exists|copy: Waker|
            {
                &&& #[trigger] task::copied(waker, copy)
                &&& states.last().notification() == Some(copy) || exists|k: int|
                    0 <= k < acts.len() && #[trigger] handshake::hands_out(states, acts, k, copy)
            },
{
    let copy = lemma_announced_last(
        lock,
        waker,
        notes,
        turns,
        pending,
        from,
        to,
        states,
        acts,
        at,
    );
    let r = at.last();
    assert(handshake::waker_kept(acts, r, acts.len() as int));
    handshake::lemma_stays_announced(states, acts, r, acts.len() as int, copy);
}

/// After a call that leaves the task idle, waking a future that was polled and has not
/// completed hands out the waker of the task, unless an earlier wake-up has done so.
pub proof fn lemma_wake_up_reaches_task(
    lock: SlotLock,
    waker: Waker,
    notes: Seq<Note>,
    turns: Seq<(int, bool)>,
    pending: Seq<bool>,
    from: int,
    to: int,
    states: Seq<SlotState<Waker>>,
    acts: Seq<Act<Waker>>,
    at: Seq<int>,
    i: int,
    wakes: int,
)
    requires
        ledger::kept(lock, waker, notes, turns, pending, true, from, to),
        interleaves(states, acts, notes, at),
        states[0].len == pending.len(),
        states[0].unpolled <= from,
        0 <= i < pending.len(),
        pending[i],
        states[0].active[i] || exists|k: int| 0 <= k < turns.len() && (#[trigger] turns[k]).0 == i,
        at.last() < wakes < acts.len(),
        acts[wakes] == Act::<Waker>::Wake(i),
    ensures
        exists|copy: Waker, k: int|
            {
                &&& #[trigger] task::copied(waker, copy)
                &&& at.last() < k <= wakes
                &&& #[trigger] handshake::hands_out(states, acts, k, copy)
            },
{
    let copy = lemma_announced_last(
        lock,
        waker,
        notes,
        turns,
        pending,
        from,
        to,
        states,
        acts,
        at,
    );
    let r = at.last();
    lemma_active_from(
        lock,
        waker,
        notes,
        turns,
        pending,
        true,
        from,
        to,
        states,
        acts,
        at,
        i,
        r + 1,
    );
    assert(states[r + 1].wf());
    handshake::lemma_announced_wait_ends(states, acts, r, wakes, copy, i);
}

/// Whether what the slots are recorded as fits how far the futures have come: a future that
/// was polled and has not completed can be woken, and one that was never polled is not
/// readied for it.
pub open spec fn in_step<F, T>(slots: SlotState<Waker>, state: Seq<Progress<F, T>>) -> bool {
    &&& slots.len == state.len()
    &&& forall|i: int|
        0 <= i < state.len() ==> {
            &&& #[trigger] state[i] is Pending && !progress::fresh(state[i]) ==> slots.active[i]
            &&& progress::fresh(state[i]) ==> slots.unpolled <= i
        }
}

/// In the beginning, the slots fit futures none of which was polled yet.
pub proof fn lemma_begins_in_step<F, T>(state: Seq<Progress<F, T>>)
    requires
        progress::none_started(state),
    ensures
        in_step(SlotState::initial(state.len() as int), state),
{
}

/// A wait for many futures goes on until it ends. Each call that does not end it has woken
/// the task, or its waker is registered, and is handed out by the next wake-up that has an
/// effect, unless one has done so already. And every future that was polled and has not
/// completed can be woken, as before the call.
pub proof fn lemma_wait_goes_on<F, T, E>(
    lock: SlotLock,
    waker: Waker,
    start: Seq<Progress<F, T>>,
    end: Seq<Progress<F, T>>,
    gives: Gives<F, T, E>,
    notes: Seq<Note>,
    states: Seq<SlotState<Waker>>,
    acts: Seq<Act<Waker>>,
    at: Seq<int>,
)
    requires
        ledger::book_kept(
            lock,
            waker,
            start,
            end,
            Poll::<Result<Seq<T>, E>>::Pending,
            gives,
            notes,
        ),
        interleaves(states, acts, notes, at),
        in_step(states[0], start),
    ensures
        in_step(states.last(), end),
        forall|i: int|
            0 <= i < end.len() && #[trigger] end[i] is Pending && !progress::fresh(end[i])
                ==> states.last().woken(i).ready().contains(i),
        task::woken(waker) || exists|copy: Waker|
            {
                &&& #[trigger] task::copied(waker, copy)
                &&& states.last().notification() == Some(copy) || exists|k: int|
                    0 <= k < acts.len() && #[trigger] handshake::hands_out(states, acts, k, copy)
            },
{
    let (trace, idle, from, to) = choose|
        trace: Seq<PollEvent<F, T, E>>,
        idle: bool,
        from: int,
        to: int,
    | #[trigger]
        ledger::keeps_book(
            lock,
            waker,
            start,
            end,
            Poll::<Result<Seq<T>, E>>::Pending,
            gives,
            notes,
            trace,
            idle,
            from,
            to,
        );
    let turns = ledger::turns_of(trace);
    let pending = progress::pending_of(end);
    let n = states.len() - 1;
    progress::lemma_run_len(start, trace);
    if idle {
        lemma_waker_stays_registered(
            lock,
            waker,
            notes,
            turns,
            pending,
            from,
            to,
            states,
            acts,
            at,
        );
    }
    lemma_same_len(states, acts, n);
    assert(states[0].wf());
    if from < start.len() {
        assert(progress::fresh(start[from]));
    }
    assert forall|i: int| 0 <= i < end.len() && #[trigger] end[i] is Pending && !progress::fresh(
        end[i],
    ) implies states.last().active[i] && states.last().woken(i).ready().contains(i) by {
        progress::lemma_polled_differs(start, trace, i);
        progress::lemma_pending_stays(start, trace, i);
        if progress::fresh(start[i]) {
            if forall|k: int| 0 <= k < trace.len() ==> (#[trigger] trace[k]).index != i {
                progress::lemma_times_none(trace, i);
            }
            let k = choose|k: int| 0 <= k < trace.len() && (#[trigger] trace[k]).index == i;
            assert(turns[k].0 == i);
        } else {
            assert(start[i] is Pending);
            assert(states[0].active[i]);
        }
        lemma_polled_can_be_woken(
            lock,
            waker,
            notes,
            turns,
            pending,
            idle,
            from,
            to,
            states,
            acts,
            at,
            i,
        );
    }
    assert forall|i: int| 0 <= i < end.len() && progress::fresh(#[trigger] end[i]) implies
        states.last().unpolled <= i by {
        lemma_unpolled(states, acts, from, n);
        if states[n].unpolled > from {
            let k = choose|k: int|
                0 <= k < n && (#[trigger] acts[k] matches Act::Start(j) && states[n].unpolled == j
                    + 1);
            let m = choose|m: int| 0 <= m < notes.len() && #[trigger] notes[m] is Did && at[m] == k;
            reveal(ledger::kept);
            assert(ledger::starts(notes[m]) is Some);
        } else {
            reveal(ledger::kept);
        }
    }
}

/// A wake-up of a slot records that the slot was woken, if its future was polled and has not
/// completed, and it takes the waker of the task away only by waking it.
pub proof fn lemma_woken_slot(lock: SlotLock, i: int)
    requires
        slot_wakers::slot_woken(lock, i),
    ensures
        exists|before: SlotState<Waker>, after: SlotState<Waker>|
            {
                &&& #[trigger] slot_wakers::exchanged(lock, before, after)
                &&& 0 <= i < before.len && before.active[i] ==> after.ready().contains(i)
                &&& after.parent == before.parent || (before.parent matches Some(waker)
                    && task::woken(waker))
                &&& 0 <= i < before.len && before.active[i] && !before.ready().contains(i)
                    && before.parked ==> (before.parent matches Some(waker) ==> task::woken(waker))
            },
{
    let before = choose|state: SlotState<Waker>|
        {
            &&& #[trigger] slot_wakers::exchanged(lock, state, state.woken(i))
            &&& !state.queued[i] ==> (state.notification() matches Some(waker) ==> task::woken(
                waker,
            ))
        };
    let after = before.woken(i);
    let acts = slot_wakers::lemma_exchanges_are_acts(lock, seq![before, after]);
    assert(seq![before, after][0].wf());
    before.lemma_no_duplicates();
    if 0 <= i < before.len {
        before.lemma_wake_recorded(i);
    }
}

/// Whether `acts` lead from each of the states to the next, and are what a task does to what
/// it shares with the wakers of its groups, as `notes` say, together with any wake-ups.
/// What note `m` is of is done as act `at[m]`.
pub open spec fn group_interleaves(
    states: Seq<SharedState<Waker>>,
    acts: Seq<wake_groups::Act<Waker>>,
    notes: Seq<GroupNote>,
    at: Seq<int>,
) -> bool {
    &&& group_handshake::history(states, acts)
    &&& at.len() == notes.len()
    &&& forall|m: int|
        0 <= m < notes.len() ==> (#[trigger] notes[m] matches GroupNote::Did { before, act, after }
            ==> 0 <= at[m] < acts.len() && acts[at[m]] == act && states[at[m]] == before
            && states[at[m] + 1] == after)
    &&& forall|m: int, n: int|
        0 <= m < n < notes.len() && #[trigger] notes[m] is Did && #[trigger] notes[n] is Did
            ==> at[m] < at[n]
    &&& forall|k: int|
        0 <= k < acts.len() && !(#[trigger] acts[k] is Wake) ==> exists|m: int|
            0 <= m < notes.len() && #[trigger] notes[m] is Did && at[m] == k
}

/// After a call that leaves the task idle, the waker that it has registered is still
/// registered, to be handed out by the next wake-up of a group, unless a wake-up has done so
/// already.
pub proof fn lemma_group_waker_stays_registered(
    lock: GroupLock,
    waker: Waker,
    queue: Seq<usize>,
    notes: Seq<GroupNote>,
    turns: Seq<(int, bool)>,
    visits: Seq<Visit>,
    refills: Seq<SharedState<Waker>>,
    unfinished: bool,
    states: Seq<SharedState<Waker>>,
    acts: Seq<wake_groups::Act<Waker>>,
    at: Seq<int>,
)
    requires
        group_ledger::kept(
            lock,
            waker,
            queue,
            notes,
            turns,
            visits,
            refills,
            true,
            unfinished,
        ),
        group_interleaves(states, acts, notes, at),
    ensures
        exists|copy: Waker|
            {
                &&& #[trigger] task::copied(waker, copy)
                &&& (states.last().parked && states.last().parent == Some(copy)) || exists|k: int|
                    0 <= k < acts.len() && #[trigger] group_handshake::hands_out(
                        states,
                        acts,
                        k,
                        copy,
                    )
                &&& at.last() + 1 < acts.len() ==> exists|k: int|
                    0 <= k < acts.len() && #[trigger] group_handshake::hands_out(
                        states,
                        acts,
                        k,
                        copy,
                    )
            },
{
    reveal(group_ledger::kept);
    let last = notes.len() - 1;
    assert(notes[last] is Did);
    let r = at[last];
    let copy = acts[r]->Announce_0;
    assert forall|k: int| r < k < acts.len() implies #[trigger] acts[k] is Wake by {
        if !(acts[k] is Wake) {
            let m = choose|m: int| 0 <= m < notes.len() && #[trigger] notes[m] is Did && at[m] == k;
            if m < last {
                assert(at[m] < at[last]);
            }
        }
    }
    assert(group_handshake::waker_kept(acts, r, acts.len() as int));
    group_handshake::lemma_stays_announced(states, acts, r, acts.len() as int, copy);
    if r + 1 < acts.len() {
        group_handshake::lemma_announced_wait_ends(states, acts, r, r + 1, copy);
    }
}

/// A wait for futures in groups goes on until it ends: each call that does not end it has
/// woken the task, or its waker is registered, and any wake-up of a group hands it out, unless
/// one has done so already.
pub proof fn lemma_group_wait_goes_on<F, T, E>(
    lock: GroupLock,
    waker: Waker,
    start: Seq<Progress<F, T>>,
    end: Seq<Progress<F, T>>,
    queue: Seq<usize>,
    rest: Seq<usize>,
    remaining: nat,
    gives: Gives<F, T, E>,
    notes: Seq<GroupNote>,
    states: Seq<SharedState<Waker>>,
    acts: Seq<wake_groups::Act<Waker>>,
    at: Seq<int>,
)
    requires
        wake_groups::booked(
            lock,
            waker,
            start,
            end,
            queue,
            rest,
            remaining,
            Poll::<Result<(), E>>::Pending,
            gives,
            notes,
        ),
        group_interleaves(states, acts, notes, at),
    ensures
        task::woken(waker) || exists|copy: Waker|
            {
                &&& #[trigger] task::copied(waker, copy)
                &&& (states.last().parked && states.last().parent == Some(copy)) || exists|k: int|
                    0 <= k < acts.len() && #[trigger] group_handshake::hands_out(
                        states,
                        acts,
                        k,
                        copy,
                    )
                &&& at.last() + 1 < acts.len() ==> exists|k: int|
                    0 <= k < acts.len() && #[trigger] group_handshake::hands_out(
                        states,
                        acts,
                        k,
                        copy,
                    )
            },
{
    let result = Poll::<Result<(), E>>::Pending;
    let (trace, visits, refills) = choose|
        trace: Seq<PollEvent<F, T, E>>,
        visits: Seq<Visit>,
        refills: Seq<SharedState<Waker>>,
    |
        {
            &&& #[trigger] wake_groups::runs(
                lock,
                waker,
                start,
                end,
                queue,
                rest,
                remaining,
                result,
                gives,
                trace,
                visits,
                refills,
            )
            &&& group_ledger::kept(
                lock,
                waker,
                queue,
                notes,
                ledger::turns_of(trace),
                visits,
                refills,
                wake_groups::leaves_idle(start.len() as int, result, visits),
                false,
            )
        };
    if wake_groups::leaves_idle(start.len() as int, result, visits) {
        lemma_group_waker_stays_registered(
            lock,
            waker,
            queue,
            notes,
            ledger::turns_of(trace),
            visits,
            refills,
            false,
            states,
            acts,
            at,
        );
    }
}

/// A wake-up of a group records that the group was woken, and it takes the waker of the task
/// away only by waking it.
pub proof fn lemma_woken_group(lock: GroupLock, group: int)
    requires
        wake_groups::group_woken(lock, group),
    ensures
        exists|before: SharedState<Waker>, after: SharedState<Waker>|
            {
                &&& #[trigger] wake_groups::exchanged(lock, before, after)
                &&& 0 <= group < before.ready.len() ==> after.ready[group]
                &&& after.parent == before.parent || (before.parent matches Some(waker)
                    && task::woken(waker))
                &&& before.parked && (forall|g: int|
                    0 <= g < before.ready.len() ==> !#[trigger] before.ready[g]) ==> (
                before.parent matches Some(waker) ==> task::woken(waker))
            },
{
    let before = choose|state: SharedState<Waker>|
        {
            &&& #[trigger] wake_groups::exchanged(lock, state, state.woken(group))
            &&& state.notification() matches Some(waker) ==> task::woken(waker)
        };
    let after = before.woken(group);
    assert(wake_groups::exchanged(lock, before, after));
}

} // verus!
