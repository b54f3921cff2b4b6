//! Why no wake-up is missed.
//!
//! What the task and the wakers do while they hold the lock of
//! [`slot_wakers`](crate::slot_wakers) is one act, and finds what the act before it has
//! left. A task that finds no slot in the queue registers its waker in the same act.
//! [`lemma_announced_wait_ends`] is about any such sequence of acts.
//!
//! [`Handshake`] is a model in which the acts are made of smaller steps, which interleave
//! in any way. In it, a task that finds no slot in the queue announces that it may wait, and
//! then looks at the queue once more. A waker puts its slot in the queue, and then
//! looks whether the task may be waiting. So one of them sees what the other has
//! done.
use crate::slots::{Act, Dequeue, SlotState};
use vstd::prelude::*;

verus! {

/// What the task that polls the futures is doing.
pub enum Phase {
    /// It polls futures.
    Running,
    /// It polls futures, and has announced that it may wait.
    Announced,
    /// It has found no slot in the queue after that, and waits.
    Waiting,
}

/// The slots, and what their task and their wakers are in the middle of.
#[verifier::reject_recursive_types(W)]
pub ghost struct Handshake<W> {
    pub slots: SlotState<W>,
    /// The wake-ups that have put their slot in the queue and are not finished.
    pub started: Set<int>,
    pub phase: Phase,
    /// Whether the task was woken since it has announced that it may wait.
    pub notified: bool,
}

/// Whether doing `acts`, one after the other, leads from each of the states to the next.
pub open spec fn history<W>(states: Seq<SlotState<W>>, acts: Seq<Act<W>>) -> bool {
    &&& states.len() == acts.len() + 1
    &&& forall|k: int|
        0 <= k < acts.len() ==> states[k].done(#[trigger] acts[k], states[k + 1])
}

/// Whether act `k` is a wake-up that hands out `waker`, to be woken.
pub open spec fn hands_out<W>(
    states: Seq<SlotState<W>>,
    acts: Seq<Act<W>>,
    k: int,
    waker: W,
) -> bool {
    &&& acts[k] matches Act::Wake(i) && !states[k].queued[i]
    &&& states[k].notification() == Some(waker)
}

/// Whether `act` registers `waker` as the waker of the task.
pub open spec fn registers_waker<W>(act: Act<W>, waker: W) -> bool {
    act matches Act::Announce(registered, _) && registered == waker
}

/// Whether no act after `from` and before `to` registers or removes the waker of the task.
pub open spec fn waker_kept<W>(acts: Seq<Act<W>>, from: int, to: int) -> bool {
    forall|k: int| from < k < to ==> !(#[trigger] acts[k] is Announce) && !(acts[k] is Close)
}

/// A task that has announced that it may wait stays so until its waker is handed out.
pub proof fn lemma_stays_announced<W>(
    states: Seq<SlotState<W>>,
    acts: Seq<Act<W>>,
    from: int,
    to: int,
    waker: W,
)
    requires
        history(states, acts),
        0 <= from < to <= acts.len(),
        registers_waker(acts[from], waker),
        waker_kept(acts, from, to),
    ensures
        (exists|k: int| from < k < to && #[trigger] hands_out(states, acts, k, waker)) || (
        states[to].parked && states[to].parent == Some(waker)),
    decreases to - from,
{
    assert(states[to - 1].done(acts[to - 1], states[to]));
    if from + 1 < to {
        lemma_stays_announced(states, acts, from, to - 1, waker);
        if !(exists|k: int| from < k < to && #[trigger] hands_out(states, acts, k, waker)) {
            assert(states[to - 1].parked && states[to - 1].parent == Some(waker));
            assert(!hands_out(states, acts, to - 1, waker));
        }
    }
}

/// The first wake-up that has an effect after the task has announced that it may wait hands
/// out the waker of the task, whatever else is done meanwhile.
pub proof fn lemma_wakes_once<W>(
    states: Seq<SlotState<W>>,
    acts: Seq<Act<W>>,
    from: int,
    to: int,
    waker: W,
)
    requires
        history(states, acts),
        0 <= from < to < acts.len(),
        registers_waker(acts[from], waker),
        waker_kept(acts, from, to),
        acts[to] matches Act::Wake(i) && !states[to].queued[i],
    ensures
        exists|k: int| from < k <= to && #[trigger] hands_out(states, acts, k, waker),
{
    lemma_stays_announced(states, acts, from, to, waker);
    if states[to].parked && states[to].parent == Some(waker) {
        assert(hands_out(states, acts, to, waker));
    }
}

/// Once the waker of the task was removed, no wake-up hands out a waker until one is
/// registered again.
pub proof fn lemma_closed_wakes_nobody<W>(
    states: Seq<SlotState<W>>,
    acts: Seq<Act<W>>,
    from: int,
    to: int,
)
    requires
        history(states, acts),
        0 <= from < to <= acts.len(),
        acts[from] == Act::<W>::Close,
        forall|k: int| from < k < to ==> !(#[trigger] acts[k] is Announce),
    ensures
        states[to].parent is None,
        states[to].notification() is None,
    decreases to - from,
{
    assert(states[to - 1].done(acts[to - 1], states[to]));
    if from + 1 < to {
        lemma_closed_wakes_nobody(states, acts, from, to - 1);
        assert(!(acts[to - 1] is Announce));
    }
}

/// No wake-up is lost: where the task has registered `waker`, has then found no slot in the
/// queue, and waits, its waker is handed out by the time a future that it waits for is
/// woken. While it waits, only wakers do anything.
pub proof fn lemma_wait_ends<W>(
    states: Seq<SlotState<W>>,
    acts: Seq<Act<W>>,
    registers: int,
    waits: int,
    wakes: int,
    waker: W,
    i: int,
)
    requires
        history(states, acts),
        0 <= registers < waits <= wakes < acts.len(),
        registers_waker(acts[registers], waker),
        waker_kept(acts, registers, waits),
        states[waits].wf(),
        states[waits].ready().len() == 0,
        forall|k: int|
            waits <= k < wakes ==> #[trigger] acts[k] is Wake || acts[k] is Read,
        0 <= i < states[waits].len,
        states[waits].active[i],
        acts[wakes] == Act::<W>::Wake(i),
    ensures
        exists|k: int| registers < k <= wakes && #[trigger] hands_out(states, acts, k, waker),
{
    states[waits].lemma_no_duplicates();
    assert(!states[waits].ready().contains(i));
    assert(!states[waits].queued[i]);
    lemma_first_effect(states, acts, waits, wakes, i);
    let k = choose|k: int|
        {
            &&& waits <= k <= wakes
            &&& #[trigger] acts[k] is Wake
            &&& !states[k].queued[acts[k]->Wake_0]
        };
    assert forall|n: int| registers < n < k implies !(#[trigger] acts[n] is Announce)
        && !(acts[n] is Close) by {
        if waits <= n {
            assert(acts[n] is Wake || acts[n] is Read);
        }
    }
    lemma_wakes_once(states, acts, registers, k, waker);
}

/// As [`lemma_wait_ends`], of a task that waits from when it has registered `waker`. That it
/// does so finds no slot in the queue.
pub proof fn lemma_announced_wait_ends<W>(
    states: Seq<SlotState<W>>,
    acts: Seq<Act<W>>,
    registers: int,
    wakes: int,
    waker: W,
    i: int,
)
    requires
        history(states, acts),
        0 <= registers < wakes < acts.len(),
        registers_waker(acts[registers], waker),
        states[registers + 1].wf(),
        forall|k: int|
            registers < k < wakes ==> #[trigger] acts[k] is Wake || acts[k] is Read,
        0 <= i < states[registers + 1].len,
        states[registers + 1].active[i],
        acts[wakes] == Act::<W>::Wake(i),
    ensures
        exists|k: int| registers < k <= wakes && #[trigger] hands_out(states, acts, k, waker),
{
    assert(states[registers].done(acts[registers], states[registers + 1]));
    let pending = acts[registers]->Announce_1;
    let (between, skipped) = choose|between: SlotState<W>, skipped: Seq<int>| #[trigger]
        states[registers].found_none(between, skipped, pending) && states[registers + 1]
            == between.announced(waker);
    assert(between.ready() == states[registers + 1].ready());
    lemma_wait_ends(states, acts, registers, registers + 1, wakes, waker, i);
}

/// A wake-up of a slot that is not in the queue has an effect, or an earlier one had.
proof fn lemma_first_effect<W>(
    states: Seq<SlotState<W>>,
    acts: Seq<Act<W>>,
    from: int,
    to: int,
    i: int,
)
    requires
        history(states, acts),
        0 <= from <= to < acts.len(),
        forall|k: int| from <= k < to ==> #[trigger] acts[k] is Wake || acts[k] is Read,
        !states[from].queued[i],
        acts[to] == Act::<W>::Wake(i),
    ensures
        exists|k: int|
            {
                &&& from <= k <= to
                &&& #[trigger] acts[k] is Wake
                &&& !states[k].queued[acts[k]->Wake_0]
            },
    decreases to - from,
{
    if from == to {
        assert(acts[to] is Wake);
    } else {
        assert(acts[from] is Wake || acts[from] is Read);
        assert(states[from].done(acts[from], states[from + 1]));
        if acts[from] is Wake && !states[from].queued[acts[from]->Wake_0] {
        } else {
            assert(states[from + 1] == states[from]);
            lemma_first_effect(states, acts, from + 1, to, i);
        }
    }
}

/// The slots that were put in the queue, one after the other.
pub open spec fn woken_in<W>(states: Seq<SlotState<W>>, acts: Seq<Act<W>>) -> Seq<int>
    decreases acts.len(),
{
    if acts.len() == 0 {
        Seq::empty()
    } else {
        let earlier = woken_in(states.drop_last(), acts.drop_last());
        match acts.last() {
            Act::Wake(i) => if states[acts.len() - 1].queued[i] {
                earlier
            } else {
                earlier.push(i)
            },
            _ => earlier,
        }
    }
}

/// The slots that were taken from the queue, one after the other: each look for a slot takes
/// as many as are missing after it, the first ones.
pub open spec fn taken_in<W>(states: Seq<SlotState<W>>, acts: Seq<Act<W>>) -> Seq<int>
    decreases acts.len(),
{
    if acts.len() == 0 {
        Seq::empty()
    } else {
        let earlier = taken_in(states.drop_last(), acts.drop_last());
        let before = states[acts.len() - 1].ready();
        let after = states[acts.len() as int].ready();
        match acts.last() {
            Act::Look(_, _) | Act::Announce(_, _) => earlier + before.take(before.len() - after.len()),
            _ => earlier,
        }
    }
}

/// The queue is first in, first out, whatever is done meanwhile: what was in it at first,
/// and then the slots that were woken, are the slots that were taken, and then what is left
/// in it, in the same order.
pub proof fn lemma_first_in_first_out<W>(states: Seq<SlotState<W>>, acts: Seq<Act<W>>)
    requires
        history(states, acts),
        forall|k: int| 0 <= k < states.len() ==> (#[trigger] states[k]).wf(),
    ensures
        states[0].ready() + woken_in(states, acts) == taken_in(states, acts)
            + states.last().ready(),
    decreases acts.len(),
{
    if acts.len() > 0 {
        let n = acts.len() - 1;
        let earlier = states.drop_last();
        let first = acts.drop_last();
        assert forall|k: int| 0 <= k < first.len() implies earlier[k].done(
            #[trigger] first[k],
            earlier[k + 1],
        ) by {
            assert(states[k].done(acts[k], states[k + 1]));
        }
        assert forall|k: int| 0 <= k < earlier.len() implies (#[trigger] earlier[k]).wf() by {
            assert(states[k].wf());
        }
        lemma_first_in_first_out(earlier, first);
        let before = states[n];
        let after = states[n + 1];
        assert(before.done(acts[n], after));
        assert(before.wf());
        let was = states[0].ready() + woken_in(earlier, first);
        match acts[n] {
            Act::Wake(i) => {
                if !before.queued[i] {
                    before.lemma_start_wake(i);
                    assert(after.ready() =~= before.ready().push(i));
                    assert(states[0].ready() + woken_in(states, acts) =~= was.push(i));
                }
            },
            Act::Announce(waker, pending) => {
                let (between, skipped) = choose|between: SlotState<W>, skipped: Seq<int>|
                    #[trigger]
                    before.found_none(between, skipped, pending) && after == between.announced(
                        waker,
                    );
                assert(between.ready() == after.ready());
                assert(before.ready() == skipped + after.ready());
                assert(before.ready().take(skipped.len() as int) =~= skipped);
                assert(taken_in(states, acts) + after.ready() =~= taken_in(earlier, first)
                    + before.ready());
            },
            Act::Look(result, pending) => {
                let skipped = choose|skipped: Seq<int>| #[trigger]
                    before.moved_on(after, result, skipped, pending);
                let gone = match result {
                    Dequeue::Data(i) => skipped.push(i as int),
                    _ => skipped,
                };
                assert(before.ready() == gone + after.ready());
                assert(before.ready().take(gone.len() as int) =~= gone);
                assert(taken_in(states, acts) + after.ready() =~= taken_in(earlier, first)
                    + before.ready());
            },
            _ => {
                assert(after.ready() == before.ready());
            },
        }
    } else {
        assert(states[0].ready() + Seq::<int>::empty() =~= Seq::<int>::empty()
            + states[0].ready());
    }
}

/// Once a look has left the queue empty, every slot that was in it at first or was woken
/// since was taken from it, in this order.
pub proof fn lemma_every_woken_slot_taken<W>(states: Seq<SlotState<W>>, acts: Seq<Act<W>>)
    requires
        history(states, acts),
        forall|k: int| 0 <= k < states.len() ==> (#[trigger] states[k]).wf(),
        states.last().ready().len() == 0,
    ensures
        taken_in(states, acts) == states[0].ready() + woken_in(states, acts),
{
    lemma_first_in_first_out(states, acts);
    assert(taken_in(states, acts) + states.last().ready() =~= taken_in(states, acts));
}

/// A slot that is in the queue, and was not at first, was woken in between. So a slot that is
/// taken from the queue was woken since it was taken the last time.
pub proof fn lemma_queued_since_woken<W>(
    states: Seq<SlotState<W>>,
    acts: Seq<Act<W>>,
    from: int,
    to: int,
    i: int,
)
    requires
        history(states, acts),
        forall|k: int| 0 <= k < states.len() ==> (#[trigger] states[k]).wf(),
        0 <= from <= to < states.len(),
        !states[from].ready().contains(i),
        states[to].ready().contains(i),
    ensures
        exists|k: int|
            from <= k < to && #[trigger] acts[k] == Act::<W>::Wake(i) && !states[k].queued[i],
    decreases to - from,
{
    if from < to {
        let before = states[to - 1];
        let after = states[to];
        assert(before.done(acts[to - 1], after));
        if before.ready().contains(i) {
            lemma_queued_since_woken(states, acts, from, to - 1, i);
        } else {
            assert(before.wf());
            let at = after.ready().index_of(i);
            match acts[to - 1] {
                Act::Wake(j) => {
                    before.lemma_wake_recorded(j);
                    if at < before.ready().len() {
                        assert(before.ready()[at] == i);
                    }
                },
                Act::Look(result, pending) => {
                    let skipped = choose|skipped: Seq<int>| #[trigger]
                        before.moved_on(after, result, skipped, pending);
                    let gone = match result {
                        Dequeue::Data(n) => skipped.push(n as int),
                        _ => skipped,
                    };
                    assert(before.ready()[gone.len() + at] == i);
                },
                Act::Announce(waker, pending) => {
                    let (between, skipped) = choose|between: SlotState<W>, skipped: Seq<int>|
                        #[trigger]
                        before.found_none(between, skipped, pending) && after
                            == between.announced(waker);
                    assert(between.ready() == after.ready());
                },
                _ => {
                    assert(after.ready() == before.ready());
                },
            }
        }
    }
}

/// A wake-up of the slot of a future that was polled keeps having an effect until the future
/// has completed.
pub proof fn lemma_stays_active<W>(
    states: Seq<SlotState<W>>,
    acts: Seq<Act<W>>,
    from: int,
    to: int,
    i: int,
)
    requires
        history(states, acts),
        forall|k: int| 0 <= k < states.len() ==> (#[trigger] states[k]).wf(),
        0 <= from <= to < states.len(),
        0 <= i < states[from].len,
        states[from].active[i],
        forall|k: int|
            from <= k < to ==> match #[trigger] acts[k] {
                Act::Look(_, pending) => pending[i],
                Act::Announce(_, pending) => pending[i],
                Act::Complete(j) => j != i,
                _ => true,
            },
    ensures
        i < states[to].len,
        states[to].active[i],
    decreases to - from,
{
    if from < to {
        lemma_stays_active(states, acts, from, to - 1, i);
        let before = states[to - 1];
        let after = states[to];
        assert(before.done(acts[to - 1], after));
        assert(before.wf());
        match acts[to - 1] {
            Act::Look(result, pending) => {
                let skipped = choose|skipped: Seq<int>| #[trigger]
                    before.moved_on(after, result, skipped, pending);
                assert(!skipped.contains(i)) by {
                    if skipped.contains(i) {
                        let k = skipped.index_of(i);
                        assert(!pending[skipped[k]]);
                    }
                }
            },
            Act::Announce(waker, pending) => {
                let (between, skipped) = choose|between: SlotState<W>, skipped: Seq<int>|
                    #[trigger]
                    before.found_none(between, skipped, pending) && after == between.announced(
                        waker,
                    );
                assert(!skipped.contains(i)) by {
                    if skipped.contains(i) {
                        let k = skipped.index_of(i);
                        assert(!pending[skipped[k]]);
                    }
                }
                assert(between.active[i]);
            },
            _ => {},
        }
    }
}

impl<W> Handshake<W> {
    /// The beginning: no future was polled, no wake-up is started, and the task does not
    /// wait.
    pub open spec fn initial(len: int) -> Self {
        Handshake {
            slots: SlotState::initial(len),
            started: Set::empty(),
            phase: Phase::Running,
            notified: false,
        }
    }

    /// What holds before and after every step holds in the beginning.
    pub proof fn lemma_initial(len: int)
        requires
            0 <= len < usize::MAX,
        ensures
            Self::initial(len).inv(),
    {
        assert(SlotState::<W>::initial(len).order =~= seq![len]);
    }

    /// Waking a slot that is not in the queue is two of the steps. Returns what is between
    /// them, and what they lead to.
    pub proof fn lemma_wake_is_steps(self, i: int) -> (steps: (Self, Self))
        requires
            self.inv(),
            0 <= i < self.slots.len,
            !self.slots.queued[i],
            !self.started.contains(i),
        ensures
            self.step(steps.0),
            steps.0.step(steps.1),
            steps.1.slots == self.slots.woken(i),
            steps.1.started == self.started,
            steps.1.phase == self.phase,
            steps.1.notified == (self.notified || self.slots.parked),
    {
        let previous = self.slots.order.last();
        self.slots.lemma_wake_in_steps(i);
        let between = Handshake {
            slots: self.slots.appended(i, false),
            started: self.started.insert(i),
            ..self
        };
        let after = Handshake {
            slots: self.slots.woken(i),
            started: self.started,
            notified: self.notified || self.slots.parked,
            ..self
        };
        assert(self.start_wake(between, i));
        assert(between.started.remove(i) =~= self.started);
        assert(between.finish_wake(after, previous, i));
        (between, after)
    }

    /// What the task does, other than to remove its waker or to register one, is one of the
    /// steps. Returns what it leads to.
    pub proof fn lemma_act_is_step(self, act: Act<W>, slots: SlotState<W>) -> (after: Self)
        requires
            self.inv(),
            self.slots.done(act, slots),
            slots.wf(),
            match act {
                Act::Start(_) | Act::Look(_, _) | Act::Complete(_) => self.phase !is Waiting,
                Act::Read => self.phase is Announced,
                _ => false,
            },
        ensures
            self.step(after),
            after.slots == slots,
            act is Read ==> (after.phase is Waiting <==> slots.ready().len() == 0),
    {
        match act {
            Act::Read => {
                let after = Handshake {
                    phase: if self.slots.ready().len() == 0 {
                        Phase::Waiting
                    } else {
                        Phase::Announced
                    },
                    ..self
                };
                assert(self.look(after));
                after
            },
            _ => {
                let after = Handshake { slots, ..self };
                assert(self.work(after));
                after
            },
        }
    }

    /// Looking for a slot, where there is none, and registering a waker is three of the
    /// steps: the task works, announces that it may wait, and waits. Returns what each of
    /// them leads to.
    pub proof fn lemma_announce_is_steps(
        self,
        waker: W,
        pending: Seq<bool>,
        slots: SlotState<W>,
    ) -> (steps: (Self, Self, Self))
        requires
            self.inv(),
            self.phase is Running,
            self.slots.done(Act::Announce(waker, pending), slots),
            slots.wf(),
        ensures
            self.step(steps.0),
            steps.0.step(steps.1),
            steps.1.step(steps.2),
            steps.2.slots == slots,
            steps.2.phase is Waiting,
            !steps.2.notified,
    {
        let (between, skipped) = choose|between: SlotState<W>, skipped: Seq<int>| #[trigger]
            self.slots.found_none(between, skipped, pending) && slots == between.announced(waker);
        let worked = Handshake { slots: between, ..self };
        let announced = Handshake {
            slots,
            phase: Phase::Announced,
            notified: false,
            ..worked
        };
        let after = Handshake { phase: Phase::Waiting, ..announced };
        assert(self.work(worked));
        assert(worked.announce(announced, waker));
        assert(announced.look(after));
        (worked, announced, after)
    }

    /// What holds before and after every step.
    pub open spec fn inv(self) -> bool {
        &&& self.slots.wf()
        &&& self.phase !is Running && !self.notified ==> self.slots.parked && self.slots.parent is Some
        &&& self.phase is Waiting && !self.notified && self.slots.ready().len() > 0
            ==> exists|i: int| self.started.contains(i)
    }

    /// A wake-up of slot `i` is started.
    pub open spec fn start_wake(self, after: Self, i: int) -> bool {
        &&& 0 <= i < self.slots.len
        &&& !self.slots.queued[i]
        &&& after == (Handshake {
            slots: self.slots.appended(i, false),
            started: self.started.insert(i),
            ..self
        })
    }

    /// The wake-up of slot `i`, which came into the queue behind `previous`, is
    /// finished. It wakes the task if the task has announced that it may wait.
    pub open spec fn finish_wake(self, after: Self, previous: int, i: int) -> bool {
        &&& self.started.contains(i)
        &&& self.slots.next_to(previous, i)
        &&& after == (Handshake {
            slots: self.slots.linked(previous).notified(),
            started: self.started.remove(i),
            notified: self.notified || self.slots.parked,
            ..self
        })
    }

    /// The task registers `waker` and announces that it may wait.
    pub open spec fn announce(self, after: Self, waker: W) -> bool {
        &&& self.phase is Running
        &&& after == (Handshake {
            slots: self.slots.announced(waker),
            phase: Phase::Announced,
            notified: false,
            ..self
        })
    }

    /// The task looks at the queue once more. It waits if no slot is in it.
    pub open spec fn look(self, after: Self) -> bool {
        &&& self.phase is Announced
        &&& after == (Handshake {
            phase: if self.slots.ready().len() == 0 {
                Phase::Waiting
            } else {
                Phase::Announced
            },
            ..self
        })
    }

    /// The task takes slots from the queue, polls futures and records which of
    /// them have completed.
    pub open spec fn work(self, after: Self) -> bool {
        &&& self.phase !is Waiting
        &&& after.slots.wf()
        &&& after.slots.parked == self.slots.parked
        &&& after.slots.parent == self.slots.parent
        &&& after == (Handshake { slots: after.slots, ..self })
    }

    /// The task is polled again.
    pub open spec fn resume(self, after: Self) -> bool {
        after == (Handshake { phase: Phase::Running, ..self })
    }

    /// Any one of the steps.
    pub open spec fn step(self, after: Self) -> bool {
        ||| exists|i: int| self.start_wake(after, i)
        ||| exists|previous: int, i: int| self.finish_wake(after, previous, i)
        ||| exists|waker: W| self.announce(after, waker)
        ||| self.look(after)
        ||| self.work(after)
        ||| self.resume(after)
    }

    /// Every step keeps what holds before it.
    pub proof fn lemma_step(self, after: Self)
        requires
            self.inv(),
            self.step(after),
        ensures
            after.inv(),
    {
        if exists|i: int| self.start_wake(after, i) {
            let i = choose|i: int| self.start_wake(after, i);
            self.slots.lemma_start_wake(i);
            assert(after.started.contains(i));
        }
    }

    /// No wake-up is missed: if the task waits, a slot is in the queue and every
    /// wake-up that was started is finished, then the task was woken.
    pub proof fn lemma_no_missed_wake_up(self)
        requires
            self.inv(),
            self.phase is Waiting,
            self.slots.ready().len() > 0,
            forall|i: int| !self.started.contains(i),
        ensures
            self.notified,
    {
    }

    /// The wake-up that is finished first while the task waits hands out the waker
    /// of the task.
    pub proof fn lemma_wake_up_wakes(self, after: Self, previous: int, i: int)
        requires
            self.inv(),
            self.phase is Waiting,
            !self.notified,
            self.finish_wake(after, previous, i),
        ensures
            self.slots.notification() is Some,
            self.slots.notification() == self.slots.parent,
            after.notified,
    {
    }
}

} // verus!
