//! What a task does to the slots of its futures, and when it polls them, in one sequence.
//!
//! The slots stand behind a lock that the task and the wakers of its futures share. The
//! task holds a [`Ledger`], in which every act on the slots that is the task's to do, and
//! every poll of a future, is noted. [`Guarded`] slots can be changed in no other way:
//! whoever does such an act has to show the ledger that was made with the slots, and there
//! is one of it. Whoever wakes a slot has to show a [`Call`].
use crate::maybe_done::PollElem;
use crate::progress;
use crate::progress::{Gives, Manner, PollEvent, Progress};
use crate::slot_wakers;
use crate::slot_wakers::SlotLock;
use crate::slots;
use crate::slots::{Act, Dequeue, Inner, SlotState};
use crate::task;
use crate::waking::Call;
use std::task::{Context, Poll, Waker};
use vstd::prelude::*;

verus! {

/// One thing that a task has done.
pub ghost enum Note {
    /// The slots were in the state `before`, and `act` has led to `after`.
    Did { before: SlotState<Waker>, act: Act<Waker>, after: SlotState<Waker> },
    /// The future of slot `index` was polled. Then it was `ready`, or has not completed.
    Polled { index: int, ready: bool },
}

/// What a task has done to its slots and futures.
pub struct Ledger {
    id: Ghost<int>,
    log: Ghost<Seq<Note>>,
}

/// The slots of a task, which it changes only as it notes in its ledger.
pub struct Guarded {
    inner: Inner<Waker>,
    id: Ghost<int>,
}

impl View for Guarded {
    type V = SlotState<Waker>;

    closed spec fn view(&self) -> SlotState<Waker> {
        self.inner@
    }
}

impl Ledger {
    /// What tells the slots that the ledger is of from others.
    pub closed spec fn id(&self) -> int {
        self.id@
    }

    /// What was noted, one after the other.
    pub closed spec fn log(&self) -> Seq<Note> {
        self.log@
    }

    /// Polls element `index`, which has not completed, and notes it.
    pub(crate) fn poll_elem<T: PollElem>(
        &mut self,
        elems: &mut Vec<T>,
        index: usize,
        cx: &mut Context<'_>,
    ) -> (signal: Poll<Result<(), T::Error>>)
        requires
            index < old(elems).len(),
            old(elems)[index as int].progress() is Pending,
            progress::live(old(elems)[index as int].progress()),
        ensures
            final(self).id() == old(self).id(),
            final(self).log() == old(self).log().push(
                Note::Polled { index: index as int, ready: signal is Ready },
            ),
            final(elems)@ == old(elems)@.update(index as int, final(elems)@[index as int]),
            progress::polled(
                old(elems)[index as int].progress(),
                final(elems)[index as int].progress(),
                task::context_waker(*old(cx)),
                signal,
            ),
            T::gives(
                old(elems)[index as int].progress()->Pending_0,
                task::context_waker(*old(cx)),
                progress::returned(final(elems)[index as int].progress(), signal),
            ),
    {
        let signal: Poll<Result<(), T::Error>> = elems[index].poll_elem(cx);
        let ghost note = Note::Polled { index: index as int, ready: signal is Ready };
        proof {
            self.log = Ghost(self.log@.push(note));
            assert(elems@ =~= old(elems)@.update(index as int, elems@[index as int]));
        }
        signal
    }
}

impl Guarded {
    /// What tells the slots from others. Of two slots that were made it is not known to be
    /// the same.
    pub closed spec fn id(&self) -> int {
        self.id@
    }

    /// Whether the slots and the queue are in order.
    pub closed spec fn wf(&self) -> bool {
        self.inner.wf()
    }

    /// Slots and a queue that are in order are in a possible state.
    pub proof fn lemma_state(&self)
        requires
            self.wf(),
        ensures
            self@.wf(),
    {
        self.inner.lemma_state();
    }

    /// Creates the slots for `len` futures, and the ledger of their task.
    pub(crate) fn new(len: usize) -> (result: (Guarded, Ledger))
        requires
            len < usize::MAX,
        ensures
            result.0.wf(),
            result.0@ == SlotState::<Waker>::initial(len as int),
            result.1.id() == result.0.id(),
            result.1.log() == Seq::<Note>::empty(),
    {
        let inner: Inner<Waker> = Inner::new(len);
        let ghost id: int = arbitrary();
        let ghost log = Seq::<Note>::empty();
        (Guarded { inner, id: Ghost(id) }, Ledger { id: Ghost(id), log: Ghost(log) })
    }

    /// Wakes slot `index`, in `call`. Returns the waker to wake: the one of the task that
    /// polls the futures, if the slot was put in the queue and that task may be waiting for a
    /// wake-up.
    pub(crate) fn wake_by_ref(
        &mut self,
        call: &mut Call<SlotState<Waker>>,
        index: usize,
    ) -> (parent: Option<Waker>)
        requires
            old(self).wf(),
            index < old(self)@.len,
        ensures
            final(self).wf(),
            final(self).id() == old(self).id(),
            final(call).log() == old(call).log().push((old(self)@, index as int, final(self)@)),
            final(self)@ == old(self)@.woken(index as int),
            parent == (if old(self)@.queued[index as int] {
                None
            } else {
                old(self)@.notification()
            }),
    {
        let ghost before = self@;
        let parent: Option<Waker> = self.inner.wake_by_ref(index);
        call.note(Ghost(before), Ghost(index as int), Ghost(self@));
        parent
    }

    /// Makes wake-ups of slot `index` enqueue it from now on, as its future is to be
    /// polled for the first time. Does nothing if it or one behind it was polled
    /// before.
    pub(crate) fn start(&mut self, ledger: &mut Ledger, index: usize)
        requires
            old(self).wf(),
            old(ledger).id() == old(self).id(),
            index < old(self)@.len,
        ensures
            final(self).wf(),
            final(self).id() == old(self).id(),
            final(ledger).id() == old(ledger).id(),
            final(ledger).log() == old(ledger).log().push(
                Note::Did {
                    before: old(self)@,
                    act: Act::Start(index as int),
                    after: final(self)@,
                },
            ),
            final(self)@ == old(self)@.started(index as int),
    {
        let ghost before = self@;
        self.inner.start(index);
        let ghost note = Note::Did { before, act: Act::Start(index as int), after: self@ };
        proof {
            ledger.log = Ghost(ledger.log@.push(note));
        }
    }

    /// Returns the first slot in the queue whose future has not completed. Its flag
    /// is cleared, so that a wake-up from now on enqueues it.
    pub(crate) fn next<T: PollElem>(&mut self, ledger: &mut Ledger, elems: &Vec<T>) -> (result:
        Dequeue)
        requires
            old(self).wf(),
            old(ledger).id() == old(self).id(),
            elems.len() == old(self)@.len,
        ensures
            final(self).wf(),
            final(self).id() == old(self).id(),
            final(ledger).id() == old(ledger).id(),
            final(ledger).log() == old(ledger).log().push(
                Note::Did {
                    before: old(self)@,
                    act: Act::Look(result, slots::pending_flags(elems@)),
                    after: final(self)@,
                },
            ),
            exists|skipped: Seq<int>| #[trigger]
                old(self)@.moved_on(
                    final(self)@,
                    result,
                    skipped,
                    slots::pending_flags(elems@),
                ),
    {
        let ghost before = self@;
        let result: Dequeue = self.inner.next(elems);
        let ghost act = Act::Look(result, slots::pending_flags(elems@));
        let ghost note = Note::Did { before, act, after: self@ };
        proof {
            ledger.log = Ghost(ledger.log@.push(note));
        }
        result
    }

    /// Returns the first slot in the queue whose future has not completed, with its flag
    /// cleared. If there is none, registers `waker` as the waker of the task, and announces
    /// that the task may wait for a wake-up. The waker that was registered before is dropped.
    pub(crate) fn next_or_park<T: PollElem>(
        &mut self,
        ledger: &mut Ledger,
        elems: &Vec<T>,
        waker: Waker,
    ) -> (result: Option<usize>)
        requires
            old(self).wf(),
            old(self)@.settled(),
            old(ledger).id() == old(self).id(),
            elems.len() == old(self)@.len,
        ensures
            final(self).wf(),
            final(self).id() == old(self).id(),
            final(self)@.len == old(self)@.len,
            final(self)@.settled(),
            final(ledger).id() == old(ledger).id(),
            final(ledger).log() == old(ledger).log().push(
                Note::Did {
                    before: old(self)@,
                    act: match result {
                        Some(i) => Act::Look(Dequeue::Data(i), slots::pending_flags(elems@)),
                        None => Act::Announce(waker, slots::pending_flags(elems@)),
                    },
                    after: final(self)@,
                },
            ),
            match result {
                Some(i) => {
                    &&& task::dropped(waker)
                    &&& exists|skipped: Seq<int>| #[trigger]
                        old(self)@.moved_on(
                            final(self)@,
                            Dequeue::Data(i),
                            skipped,
                            slots::pending_flags(elems@),
                        )
                },
                None => {
                    &&& task::dropped(old(self)@.parent)
                    &&& exists|between: SlotState<Waker>, skipped: Seq<int>| #[trigger]
                        old(self)@.found_none(between, skipped, slots::pending_flags(elems@))
                            && final(self)@ == between.announced(waker)
                },
            },
    {
        let ghost before = self@;
        let ghost pending = slots::pending_flags(elems@);
        let ghost copy = waker;
        let found: Dequeue = self.inner.next(elems);
        let ghost between = self@;
        let ghost skipped = choose|skipped: Seq<int>| #[trigger]
            before.moved_on(between, found, skipped, pending);
        let result: Option<usize> = match found {
            Dequeue::Data(index) => {
                task::discard(waker);
                Some(index)
            },
            _ => {
                let previous: Option<Waker> = self.inner.park(waker);
                task::discard(previous);
                assert(before.found_none(between, skipped, pending));
                None
            },
        };
        let ghost act = match result {
            Some(i) => Act::Look(Dequeue::Data(i), pending),
            None => Act::Announce(copy, pending),
        };
        let ghost note = Note::Did { before, act, after: self@ };
        proof {
            ledger.log = Ghost(ledger.log@.push(note));
        }
        result
    }

    /// Returns whether waking slot `index` does nothing: for a slot whose future
    /// was just polled and has not completed, whether it was woken meanwhile.
    pub(crate) fn was_woken(&self, ledger: &mut Ledger, index: usize) -> (woken: bool)
        requires
            self.wf(),
            old(ledger).id() == self.id(),
            index < self@.len,
        ensures
            final(ledger).id() == old(ledger).id(),
            final(ledger).log() == old(ledger).log().push(
                Note::Did { before: self@, act: Act::Read, after: self@ },
            ),
            woken == self@.queued[index as int],
    {
        let ghost note = Note::Did { before: self@, act: Act::Read, after: self@ };
        proof {
            ledger.log = Ghost(ledger.log@.push(note));
        }
        self.inner.was_woken(index)
    }

    /// Makes later wake-ups of slot `index`, whose future has completed, do
    /// nothing.
    pub(crate) fn complete(&mut self, ledger: &mut Ledger, index: usize)
        requires
            old(self).wf(),
            old(ledger).id() == old(self).id(),
            index < old(self)@.len,
        ensures
            final(self).wf(),
            final(self).id() == old(self).id(),
            final(ledger).id() == old(ledger).id(),
            final(ledger).log() == old(ledger).log().push(
                Note::Did {
                    before: old(self)@,
                    act: Act::Complete(index as int),
                    after: final(self)@,
                },
            ),
            final(self)@ == old(self)@.completed(index as int),
    {
        let ghost before = self@;
        self.inner.complete(index);
        let ghost note = Note::Did { before, act: Act::Complete(index as int), after: self@ };
        proof {
            ledger.log = Ghost(ledger.log@.push(note));
        }
    }

    /// Removes the waker of the task that polls the futures, so that that task is
    /// not woken any more.
    pub(crate) fn take_parent(&mut self, ledger: &mut Ledger) -> (parent: Option<Waker>)
        requires
            old(self).wf(),
            old(ledger).id() == old(self).id(),
        ensures
            final(self).wf(),
            final(self).id() == old(self).id(),
            final(ledger).id() == old(ledger).id(),
            final(ledger).log() == old(ledger).log().push(
                Note::Did { before: old(self)@, act: Act::Close, after: final(self)@ },
            ),
            final(self)@ == old(self)@.closed(),
            parent == old(self)@.parent,
    {
        let ghost before = self@;
        let parent: Option<Waker> = self.inner.take_parent();
        let ghost note = Note::Did { before, act: Act::Close, after: self@ };
        proof {
            ledger.log = Ghost(ledger.log@.push(note));
        }
        parent
    }
}

/// Whether `note` readies slot `i` for a poll of its future.
pub open spec fn readies(note: Note, i: int) -> bool {
    match note {
        Note::Did { before: _, act: Act::Start(j), after: _ } => j == i,
        Note::Did { before: _, act: Act::Look(Dequeue::Data(j), _), after: _ } => j == i,
        _ => false,
    }
}

/// The slot that `note` readies for the first poll of its future.
pub open spec fn starts(note: Note) -> Option<int> {
    match note {
        Note::Did { before: _, act: Act::Start(i), after: _ } => Some(i),
        _ => None,
    }
}

/// Whether `note` is of a poll of the future of slot `i`.
pub open spec fn polls(note: Note, i: int) -> bool {
    note matches Note::Polled { index, ready: _ } && index == i
}

/// Whether `note` marks slot `i` as one whose future has completed.
pub open spec fn marks(note: Note, i: int) -> bool {
    note matches Note::Did { before: _, act: Act::Complete(j), after: _ } && j == i
}

/// Whether `note` looks at the slots.
pub open spec fn reads(note: Note) -> bool {
    note matches Note::Did { before: _, act: Act::Read, after: _ }
}

/// Whether `note` registers a copy of `waker` as the waker of the task.
pub open spec fn announces(note: Note, waker: Waker) -> bool {
    note matches Note::Did { before: _, act: Act::Announce(copy, _), after: _ } && task::copied(
        waker,
        copy,
    )
}

/// Whether `flags` tells of every future that has not completed by `pending` that it has
/// not.
pub open spec fn still(flags: Seq<bool>, pending: Seq<bool>) -> bool {
    forall|i: int| 0 <= i < pending.len() && #[trigger] pending[i] ==> flags[i]
}

/// Whether what note `k` is of was to be done then. A slot is readied right before its future
/// is polled. Right after the poll, the slot of a future that has completed is marked as
/// such, unless this ends the call, and else it is looked whether the future was woken. No
/// other slot is marked. A slot is passed over only if its future has completed by `pending`.
/// The waker of the task, of which `waker` is one, is registered if the call is to leave the
/// task `idle`, by the last thing done. No slot is woken, and the waker of the task is not
/// removed.
pub open spec fn in_place(
    lock: SlotLock,
    waker: Waker,
    notes: Seq<Note>,
    pending: Seq<bool>,
    idle: bool,
    k: int,
) -> bool {
    match notes[k] {
        Note::Polled { index, ready } => {
            &&& 0 < k && readies(notes[k - 1], index)
            &&& if k + 1 < notes.len() {
                if ready {
                    marks(notes[k + 1], index)
                } else {
                    reads(notes[k + 1])
                }
            } else {
                ready
            }
        },
        Note::Did { before, act, after } => {
            &&& slot_wakers::exchanged(lock, before, after)
            &&& before.done(act, after)
            &&& match act {
                Act::Start(i) => k + 1 < notes.len() && polls(notes[k + 1], i),
                Act::Look(result, flags) => {
                    &&& still(flags, pending)
                    &&& result matches Dequeue::Data(i) ==> k + 1 < notes.len() && polls(
                        notes[k + 1],
                        i as int,
                    )
                },
                Act::Complete(i) => 0 < k && notes[k - 1] == (Note::Polled {
                    index: i,
                    ready: true,
                }),
                Act::Read => 0 < k && (notes[k - 1] matches Note::Polled { index: _, ready }
                    && !ready),
                Act::Announce(copy, flags) => {
                    &&& idle
                    &&& k == notes.len() - 1
                    &&& still(flags, pending)
                    &&& task::copied(waker, copy)
                    &&& task::dropped(before.parent)
                },
                Act::Wake(_) | Act::Close => false,
            }
        },
    }
}

/// The polls among these notes: of which future, and whether it has completed.
pub open spec fn polls_of(notes: Seq<Note>) -> Seq<(int, bool)>
    decreases notes.len(),
{
    if notes.len() == 0 {
        Seq::empty()
    } else {
        let earlier = polls_of(notes.drop_last());
        match notes.last() {
            Note::Polled { index, ready } => earlier.push((index, ready)),
            _ => earlier,
        }
    }
}

/// Of each poll, which future it polled, and whether it has completed.
pub open spec fn turns_of<F, T, E>(trace: Seq<PollEvent<F, T, E>>) -> Seq<(int, bool)> {
    Seq::new(trace.len(), |k: int| (trace[k].index, trace[k].result is Ready))
}

/// Whether the slots that are readied for the first poll of their futures are some of those
/// from `from` on and before `to`, in order.
pub open spec fn starts_in_order(notes: Seq<Note>, from: int, to: int) -> bool {
    &&& from <= to
    &&& forall|k: int|
        0 <= k < notes.len() ==> (starts(#[trigger] notes[k]) matches Some(i) ==> from <= i < to)
    &&& forall|j: int, k: int|
        0 <= j < k < notes.len() && starts(#[trigger] notes[j]) is Some && starts(
            #[trigger] notes[k],
        ) is Some ==> starts(notes[j])->0 < starts(notes[k])->0
}

/// Whether a task that is to make the polls of `turns`, by which the futures come to be those
/// that have not completed by `pending`, does what `notes` are of, and nothing else, as it is
/// to. Of the futures that were never polled it polls those from `from` on and before `to`.
/// It is left `idle` if `waker`, its waker, was registered last.
#[verifier::opaque]
pub open spec fn kept(
    lock: SlotLock,
    waker: Waker,
    notes: Seq<Note>,
    turns: Seq<(int, bool)>,
    pending: Seq<bool>,
    idle: bool,
    from: int,
    to: int,
) -> bool {
    &&& forall|k: int|
        0 <= k < notes.len() ==> #[trigger] in_place(lock, waker, notes, pending, idle, k)
    &&& idle ==> notes.len() > 0 && announces(notes.last(), waker)
    &&& polls_of(notes) == turns
    &&& forall|k: int|
        0 <= k < turns.len() && (#[trigger] turns[k]).1 ==> 0 <= turns[k].0 < pending.len()
            && !pending[turns[k].0]
    &&& starts_in_order(notes, from, to)
}

/// Whether waiting for all futures, in one call that makes the polls of `trace`, takes them
/// from `start` to `end` and gives `result`, and the call does what `notes` are of and
/// nothing else. It is left `idle`, or wakes the task, or ends the wait. The futures from
/// position `from` on were never polled, and now those from position `to` on.
pub open spec fn keeps_book<F, T, E>(
    lock: SlotLock,
    waker: Waker,
    start: Seq<Progress<F, T>>,
    end: Seq<Progress<F, T>>,
    result: Poll<Result<Seq<T>, E>>,
    gives: Gives<F, T, E>,
    notes: Seq<Note>,
    trace: Seq<PollEvent<F, T, E>>,
    idle: bool,
    from: int,
    to: int,
) -> bool {
    &&& progress::try_joins(start, end, result, Manner::Slots(lock, waker), gives, trace)
    &&& kept(
        lock,
        waker,
        notes,
        turns_of(trace),
        progress::pending_of(progress::run(start, trace)),
        idle,
        from,
        to,
    )
    &&& idle ==> result is Pending
    &&& result is Pending && !idle ==> task::woken(waker)
    &&& 0 <= from
    &&& forall|i: int|
        0 <= i < start.len() ==> (progress::fresh(#[trigger] start[i]) <==> from <= i)
    &&& result is Pending ==> forall|i: int|
        0 <= i < end.len() ==> (progress::fresh(#[trigger] end[i]) <==> to <= i)
}

/// Whether waiting for all futures can have taken them from `start` to `end` and given
/// `result` in one call that does what `notes` are of and nothing else.
pub open spec fn book_kept<F, T, E>(
    lock: SlotLock,
    waker: Waker,
    start: Seq<Progress<F, T>>,
    end: Seq<Progress<F, T>>,
    result: Poll<Result<Seq<T>, E>>,
    gives: Gives<F, T, E>,
    notes: Seq<Note>,
) -> bool {
    exists|trace: Seq<PollEvent<F, T, E>>, idle: bool, from: int, to: int| #[trigger]
        keeps_book(lock, waker, start, end, result, gives, notes, trace, idle, from, to)
}

/// What was noted in addition to `log`.
pub open spec fn added(log: Seq<Note>, longer: Seq<Note>) -> Seq<Note> {
    longer.skip(log.len() as int)
}

/// Whether looking for a slot to poll, with what `notes` are of, has given `result`, where
/// `flags` tells of each future whether it has not completed. Only the last look finds a
/// slot. The futures from `from` on were never polled, and now those from `to` on.
#[verifier::opaque]
pub open spec fn searches(
    lock: SlotLock,
    waker: Waker,
    notes: Seq<Note>,
    result: Option<usize>,
    flags: Seq<bool>,
    from: int,
    to: int,
) -> bool {
    &&& notes.len() > 0
    &&& from <= to
    &&& forall|k: int|
        0 <= k < notes.len() ==> (#[trigger] notes[k] matches Note::Did { before, act, after } && {
            &&& slot_wakers::exchanged(lock, before, after)
            &&& before.done(act, after)
            &&& if k < notes.len() - 1 {
                act matches Act::Look(found, told) && found !is Data && told == flags
            } else {
                match result {
                    Some(i) => {
                        ||| act == Act::<Waker>::Start(i as int) && from <= i && to == i + 1
                            && notes.len() == 1
                        ||| act == Act::<Waker>::Look(Dequeue::Data(i), flags)
                    },
                    None => act matches Act::Announce(copy, told) && told == flags && task::copied(
                        waker,
                        copy,
                    ) && task::dropped(before.parent),
                }
            }
        })
}

/// The polls of two sequences, one after the other.
pub proof fn lemma_turns_concat<F, T, E>(
    trace: Seq<PollEvent<F, T, E>>,
    more: Seq<PollEvent<F, T, E>>,
)
    ensures
        turns_of(trace + more) == turns_of(trace) + turns_of(more),
{
    assert(turns_of(trace + more) =~= turns_of(trace) + turns_of(more));
}

/// A future that has not completed after polls had not completed before them.
pub proof fn lemma_still<F, T, E>(start: Seq<Progress<F, T>>, trace: Seq<PollEvent<F, T, E>>)
    requires
        progress::valid(start, trace),
    ensures
        progress::run(start, trace).len() == start.len(),
        still(progress::pending_of(start), progress::pending_of(progress::run(start, trace))),
{
    let end = progress::run(start, trace);
    progress::lemma_run_len(start, trace);
    assert forall|i: int|
        0 <= i < end.len() && #[trigger] progress::pending_of(end)[i] implies progress::pending_of(
        start,
    )[i] by {
        progress::lemma_pending_stays(start, trace, i);
    }
}

/// The polls among the notes of one thing more.
pub proof fn lemma_polls_push(notes: Seq<Note>, note: Note)
    ensures
        polls_of(notes.push(note)) == (match note {
            Note::Polled { index, ready } => polls_of(notes).push((index, ready)),
            _ => polls_of(notes),
        }),
{
    assert(notes.push(note).drop_last() =~= notes);
}

/// The polls among the notes of two sequences.
pub proof fn lemma_polls_concat(notes: Seq<Note>, more: Seq<Note>)
    ensures
        polls_of(notes + more) == polls_of(notes) + polls_of(more),
    decreases more.len(),
{
    if more.len() == 0 {
        assert(notes + more =~= notes);
    } else {
        lemma_polls_concat(notes, more.drop_last());
        assert((notes + more).drop_last() =~= notes + more.drop_last());
    }
    assert(polls_of(notes + more) =~= polls_of(notes) + polls_of(more));
}

/// Where no poll is among the notes.
proof fn lemma_no_polls(notes: Seq<Note>)
    requires
        forall|k: int| 0 <= k < notes.len() ==> !(#[trigger] notes[k] is Polled),
    ensures
        polls_of(notes) == Seq::<(int, bool)>::empty(),
    decreases notes.len(),
{
    if notes.len() > 0 {
        assert(!(notes[notes.len() - 1] is Polled));
        assert forall|k: int| 0 <= k < notes.drop_last().len() implies !(
        #[trigger] notes.drop_last()[k] is Polled) by {
            assert(!(notes[k] is Polled));
        }
        lemma_no_polls(notes.drop_last());
    }
}

/// Nothing was done.
pub proof fn lemma_kept_empty(lock: SlotLock, waker: Waker, pending: Seq<bool>, from: int)
    ensures
        kept(lock, waker, Seq::empty(), Seq::empty(), pending, false, from, from),
{
    reveal(kept);
}

/// A search for a slot that has found none.
pub proof fn lemma_search_ends(
    lock: SlotLock,
    waker: Waker,
    notes: Seq<Note>,
    flags: Seq<bool>,
    from: int,
    to: int,
)
    requires
        searches(lock, waker, notes, None, flags, from, to),
    ensures
        kept(lock, waker, notes, Seq::empty(), flags, true, from, to),
        notes.len() > 0 && !(notes.last() is Polled),
{
    reveal(kept);
    reveal(searches);
    assert forall|k: int| 0 <= k < notes.len() implies #[trigger] in_place(
        lock,
        waker,
        notes,
        flags,
        true,
        k,
    ) && starts(notes[k]) is None && !(notes[k] is Polled) by {
        assert(notes[k] is Did);
    }
    assert forall|k: int| 0 <= k < notes.len() implies starts(#[trigger] notes[k]) is None by {
        assert(in_place(lock, waker, notes, flags, true, k));
    }
    assert forall|k: int| 0 <= k < notes.len() implies !(#[trigger] notes[k] is Polled) by {}
    lemma_no_polls(notes);
}

/// A poll of the future of the slot that was found, and what is done after it: the slot is
/// marked if the future has completed, which may be left to be done, or it is looked whether
/// it was woken.
pub proof fn lemma_turn_kept(
    lock: SlotLock,
    waker: Waker,
    search: Seq<Note>,
    i: usize,
    ready: bool,
    rest: Seq<Note>,
    flags: Seq<bool>,
    pending: Seq<bool>,
    from: int,
    to: int,
)
    requires
        searches(lock, waker, search, Some(i), flags, from, to),
        still(flags, pending),
        ready ==> i < pending.len() && !pending[i as int],
        rest.len() == 0 ==> ready,
        rest.len() <= 1,
        rest.len() == 1 ==> (rest[0] matches Note::Did { before, act, after } && {
            &&& slot_wakers::exchanged(lock, before, after)
            &&& before.done(act, after)
            &&& act == (if ready {
                Act::<Waker>::Complete(i as int)
            } else {
                Act::<Waker>::Read
            })
        }),
    ensures
        kept(
            lock,
            waker,
            search.push(Note::Polled { index: i as int, ready }) + rest,
            seq![(i as int, ready)],
            pending,
            false,
            from,
            to,
        ),
{
    reveal(kept);
    reveal(searches);
    let middle = search.push(Note::Polled { index: i as int, ready });
    let notes = middle + rest;
    let n = search.len() as int;
    assert forall|k: int| 0 <= k < n implies notes[k] == #[trigger] search[k] by {}
    assert(notes[n] == Note::Polled { index: i as int, ready });
    assert(rest.len() == 1 ==> notes[n + 1] == rest[0]);
    assert(search[n - 1] is Did);
    assert forall|k: int| 0 <= k < notes.len() implies #[trigger] in_place(
        lock,
        waker,
        notes,
        pending,
        false,
        k,
    ) by {
        if k < n {
            assert(search[k] is Did);
        }
    }
    assert forall|k: int| 0 <= k < n implies !(#[trigger] search[k] is Polled) by {
        assert(search[k] is Did);
    }
    lemma_no_polls(search);
    lemma_polls_push(search, Note::Polled { index: i as int, ready });
    lemma_polls_concat(middle, rest);
    assert forall|k: int| 0 <= k < rest.len() implies !(#[trigger] rest[k] is Polled) by {}
    lemma_no_polls(rest);
    assert(polls_of(notes) =~= seq![(i as int, ready)]);
    assert forall|k: int| 0 <= k < notes.len() && k != n - 1 implies starts(#[trigger] notes[k])
        is None by {
        if k < n {
            assert(search[k] is Did);
        }
    }
    assert(starts_in_order(notes, from, to));
}

/// What is done as it is to be may be followed by more that is.
pub proof fn lemma_kept_concat(
    lock: SlotLock,
    waker: Waker,
    notes: Seq<Note>,
    turns: Seq<(int, bool)>,
    pending: Seq<bool>,
    from: int,
    middle: int,
    more: Seq<Note>,
    more_turns: Seq<(int, bool)>,
    later: Seq<bool>,
    idle: bool,
    to: int,
)
    requires
        kept(lock, waker, notes, turns, pending, false, from, middle),
        kept(lock, waker, more, more_turns, later, idle, middle, to),
        notes.len() > 0 ==> !(notes.last() is Polled),
        later.len() == pending.len(),
        still(pending, later),
    ensures
        kept(lock, waker, notes + more, turns + more_turns, later, idle, from, to),
{
    reveal(kept);
    let all = notes + more;
    let n = notes.len() as int;
    assert forall|k: int| 0 <= k < all.len() implies #[trigger] in_place(
        lock,
        waker,
        all,
        later,
        idle,
        k,
    ) by {
        if k < n {
            assert(in_place(lock, waker, notes, pending, false, k));
            assert(all[k] == notes[k]);
            if k + 1 < n {
                assert(all[k + 1] == notes[k + 1]);
            }
            if 0 < k {
                assert(all[k - 1] == notes[k - 1]);
            }
            if let Note::Did { before: _, act: Act::Look(_, flags), after: _ } = notes[k] {
                assert forall|i: int| 0 <= i < later.len() && #[trigger] later[i] implies flags[i] by {
                    assert(pending[i]);
                }
            }
        } else {
            assert(in_place(lock, waker, more, later, idle, k - n));
            assert(all[k] == more[k - n]);
            if k + 1 < all.len() {
                assert(all[k + 1] == more[k + 1 - n]);
            }
            if n < k {
                assert(all[k - 1] == more[k - 1 - n]);
            }
        }
    }
    lemma_polls_concat(notes, more);
    assert forall|k: int|
        0 <= k < (turns + more_turns).len() && (#[trigger] (turns + more_turns)[k]).1 implies 0
        <= (turns + more_turns)[k].0 < later.len() && !later[(turns + more_turns)[k].0] by {
        if k < turns.len() {
            assert(turns[k].1);
            if later[turns[k].0] {
                assert(pending[turns[k].0]);
            }
        } else {
            assert(more_turns[k - turns.len()].1);
        }
    }
    assert forall|k: int| 0 <= k < all.len() implies (starts(#[trigger] all[k]) matches Some(i)
        ==> from <= i < to && (k < n ==> i < middle) && (n <= k ==> middle <= i)) by {
        if k < n {
            assert(all[k] == notes[k]);
        } else {
            assert(all[k] == more[k - n]);
        }
    }
    assert forall|j: int, k: int|
        0 <= j < k < all.len() && starts(#[trigger] all[j]) is Some && starts(#[trigger] all[k])
            is Some implies starts(all[j])->0 < starts(all[k])->0 by {
        if k < n {
            assert(all[j] == notes[j] && all[k] == notes[k]);
        } else if n <= j {
            assert(all[j] == more[j - n] && all[k] == more[k - n]);
        }
    }
    if idle {
        assert(all.last() == more.last());
    }
}

/// The slot of the future that was polled last, and has completed, is marked as such.
pub proof fn lemma_mark_kept(
    lock: SlotLock,
    waker: Waker,
    notes: Seq<Note>,
    turns: Seq<(int, bool)>,
    pending: Seq<bool>,
    from: int,
    to: int,
    i: int,
    state: SlotState<Waker>,
)
    requires
        kept(lock, waker, notes, turns, pending, false, from, to),
        notes.len() > 0,
        notes.last() == (Note::Polled { index: i, ready: true }),
        slot_wakers::exchanged(lock, state, state.completed(i)),
        0 <= i < state.len,
    ensures
        kept(
            lock,
            waker,
            notes.push(
                Note::Did { before: state, act: Act::Complete(i), after: state.completed(i) },
            ),
            turns,
            pending,
            false,
            from,
            to,
        ),
{
    reveal(kept);
    let note = Note::Did { before: state, act: Act::Complete(i), after: state.completed(i) };
    let longer = notes.push(note);
    let n = notes.len() as int;
    assert forall|k: int| 0 <= k < longer.len() implies #[trigger] in_place(
        lock,
        waker,
        longer,
        pending,
        false,
        k,
    ) by {
        if k < n {
            assert(in_place(lock, waker, notes, pending, false, k));
        } else {
            assert(longer[k - 1] == notes.last());
        }
    }
    lemma_polls_push(notes, note);
    assert forall|k: int| 0 <= k < longer.len() implies (starts(#[trigger] longer[k]) matches Some(
        j,
    ) ==> k < n && longer[k] == notes[k]) by {}
}

/// A search for a slot, the poll that it leads to and what is done after it may follow what is
/// done as it is to be.
pub proof fn lemma_turn_added(
    lock: SlotLock,
    waker: Waker,
    notes: Seq<Note>,
    turns: Seq<(int, bool)>,
    flags: Seq<bool>,
    from: int,
    middle: int,
    search: Seq<Note>,
    i: usize,
    ready: bool,
    rest: Seq<Note>,
    pending: Seq<bool>,
    to: int,
) -> (longer: Seq<Note>)
    requires
        kept(lock, waker, notes, turns, flags, false, from, middle),
        notes.len() > 0 ==> !(notes.last() is Polled),
        searches(lock, waker, search, Some(i), flags, middle, to),
        pending.len() == flags.len(),
        still(flags, pending),
        ready ==> i < pending.len() && !pending[i as int],
        rest.len() == 0 ==> ready,
        rest.len() <= 1,
        rest.len() == 1 ==> (rest[0] matches Note::Did { before, act, after } && {
            &&& slot_wakers::exchanged(lock, before, after)
            &&& before.done(act, after)
            &&& act == (if ready {
                Act::<Waker>::Complete(i as int)
            } else {
                Act::<Waker>::Read
            })
        }),
    ensures
        longer == notes + (search.push(Note::Polled { index: i as int, ready }) + rest),
        kept(lock, waker, longer, turns.push((i as int, ready)), pending, false, from, to),
        rest.len() == 1 ==> longer.len() > 0 && !(longer.last() is Polled),
{
    let more = search.push(Note::Polled { index: i as int, ready }) + rest;
    lemma_turn_kept(lock, waker, search, i, ready, rest, flags, pending, middle, to);
    lemma_kept_concat(
        lock,
        waker,
        notes,
        turns,
        flags,
        from,
        middle,
        more,
        seq![(i as int, ready)],
        pending,
        false,
        to,
    );
    assert(turns + seq![(i as int, ready)] =~= turns.push((i as int, ready)));
    if rest.len() == 1 {
        assert((notes + more).last() == rest[0]);
    }
    notes + more
}

} // verus!
