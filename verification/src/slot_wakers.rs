//! Wakers for a fixed number of futures that record which futures were woken.
//!
//! The combinators use this when they are given many futures, so that a wake-up
//! only causes the woken future to be polled. The slots stand behind a lock that the
//! task and the wakers share. What is done to them is stated over the exchanges of its
//! contents: what the lock held when it was taken, and what it was left holding.
use crate::budget::Budget;
use crate::handshake;
use crate::ledger;
use crate::ledger::{Guarded, Ledger, Note};
use crate::maybe_done;
use crate::maybe_done::PollElem;
use crate::progress;
use crate::progress::{Gives, Manner, PollEvent, Progress};
use crate::ready_set;
use crate::slots;
use crate::slots::{Act, Dequeue, SlotState};
use crate::task;
use crate::waking::Call;
use std::sync::Arc;
use std::task::{Context, Poll, Waker};
use vstd::prelude::*;
use vstd::rwlock::{RwLock, RwLockPredicate, WriteHandle};

verus! {

/// What always holds of the slots that a task and its wakers share: there are
/// `len` of them, they are in order, all links of the queue are made, and `id` tells them
/// from other slots.
pub ghost struct SlotsPred {
    pub len: usize,
    pub id: int,
}

impl RwLockPredicate<Guarded> for SlotsPred {
    open spec fn inv(self, inner: Guarded) -> bool {
        inner.wf() && inner@.len == self.len && inner@.settled() && inner.id() == self.id
    }
}

/// The lock that the slots stand behind.
pub type SlotLock = RwLock<Guarded, SlotsPred>;

/// Whether `lock` was taken, which then held `inner`.
spec fn taken_with(
    lock: SlotLock,
    inner: Guarded,
    handle: WriteHandle<'_, Guarded, SlotsPred>,
) -> bool {
    call_ensures(SlotLock::acquire_write, (&lock,), (inner, handle))
}

/// Whether a lock that was taken was left holding `inner`.
spec fn left_with(
    handle: WriteHandle<'_, Guarded, SlotsPred>,
    inner: Guarded,
) -> bool {
    call_ensures(
        WriteHandle::<'_, Guarded, SlotsPred>::release_write,
        (handle, inner),
        (),
    )
}

/// Whether `lock` was taken when the slots were in the state `before`, and was left when
/// they were in the state `after`.
pub closed spec fn exchanged(
    lock: SlotLock,
    before: SlotState<Waker>,
    after: SlotState<Waker>,
) -> bool {
    exists|first: Guarded, last: Guarded, handle: WriteHandle<'_, Guarded, SlotsPred>|
        {
            &&& #[trigger] taken_with(lock, first, handle)
            &&& #[trigger] left_with(handle, last)
            &&& first@ == before
            &&& last@ == after
            &&& before.wf() && before.settled()
            &&& after.wf() && after.settled()
            &&& exists|act: Act<Waker>| #[trigger] before.done(act, after)
        }
}

/// Exchanges each of which finds what the one before has left are a history of acts:
/// whatever is done to the slots while the lock is held is one of them.
pub proof fn lemma_exchanges_are_acts(lock: SlotLock, states: Seq<SlotState<Waker>>) -> (acts: Seq<
    Act<Waker>,
>)
    requires
        states.len() > 0,
        forall|k: int|
            0 <= k < states.len() - 1 ==> exchanged(lock, #[trigger] states[k], states[k + 1]),
    ensures
        handshake::history(states, acts),
        states.len() > 1 ==> forall|k: int|
            0 <= k < states.len() ==> (#[trigger] states[k]).wf() && states[k].settled(),
{
    let acts = Seq::new(
        (states.len() - 1) as nat,
        |k: int| choose|act: Act<Waker>| #[trigger] states[k].done(act, states[k + 1]),
    );
    assert forall|k: int| 0 <= k < acts.len() implies states[k].done(
        #[trigger] acts[k],
        states[k + 1],
    ) by {
        assert(exchanged(lock, states[k], states[k + 1]));
    }
    if states.len() > 1 {
        assert forall|k: int| 0 <= k < states.len() implies (#[trigger] states[k]).wf()
            && states[k].settled() by {
            if k < states.len() - 1 {
                assert(exchanged(lock, states[k], states[k + 1]));
            } else {
                assert(exchanged(lock, states[k - 1], states[k - 1 + 1]));
            }
        }
    }
    acts
}

/// Takes the lock.
fn take(lock: &SlotLock) -> (result: (Guarded, WriteHandle<'_, Guarded, SlotsPred>))
    ensures
        taken_with(*lock, result.0, result.1),
        result.1.rwlock() == *lock,
        lock.inv(result.0),
        result.0@.wf(),
        result.0@.settled(),
{
    let acquire = SlotLock::acquire_write;
    let result: (Guarded, WriteHandle<'_, Guarded, SlotsPred>) = acquire(lock);
    proof {
        result.0.lemma_state();
    }
    result
}

/// Leaves the lock, after `act` was done to what it held when it was taken.
fn leave(
    handle: WriteHandle<'_, Guarded, SlotsPred>,
    inner: Guarded,
    Ghost(first): Ghost<Guarded>,
    Ghost(act): Ghost<Act<Waker>>,
)
    requires
        taken_with(handle.rwlock(), first, handle),
        first@.done(act, inner@),
        handle.rwlock().inv(first),
        handle.rwlock().inv(inner),
    ensures
        exchanged(handle.rwlock(), first@, inner@),
{
    let release = WriteHandle::<'_, Guarded, SlotsPred>::release_write;
    let ghost held = handle;
    proof {
        first.lemma_state();
        inner.lemma_state();
    }
    release(handle, inner);
    assert(left_with(held, inner));
}

/// Whether `lock` was made when the slots were in the state `state`.
pub closed spec fn begins(lock: SlotLock, state: SlotState<Waker>) -> bool {
    exists|inner: Guarded, pred: SlotsPred| #[trigger]
        call_ensures(SlotLock::new, (inner, Ghost(pred)), lock) && inner@ == state
}

/// Whether the slot of future `i` was readied for the first poll of its future.
pub open spec fn started(lock: SlotLock, i: int) -> bool {
    exists|state: SlotState<Waker>| #[trigger] exchanged(lock, state, state.started(i))
}

/// Whether looking for a slot to poll, where `pending` tells of each future whether it has
/// not completed, has given `result`.
pub open spec fn looked(lock: SlotLock, result: Dequeue, pending: Seq<bool>) -> bool {
    exists|before: SlotState<Waker>, after: SlotState<Waker>, skipped: Seq<int>|
        {
            &&& #[trigger] exchanged(lock, before, after)
            &&& #[trigger] before.moved_on(after, result, skipped, pending)
        }
}

/// Whether the slot of future `i` was taken from the queue of those that were woken.
pub open spec fn called(lock: SlotLock, i: int) -> bool {
    exists|pending: Seq<bool>| #[trigger] looked(lock, Dequeue::Data(i as usize), pending)
}

/// Whether looking for a slot to poll, where `pending` tells of each future whether it has
/// not completed, has left the queue empty, and at the same time a copy of `waker` was
/// registered as the waker of the task, to be woken with the next wake-up.
pub open spec fn idle(lock: SlotLock, waker: Waker, pending: Seq<bool>) -> bool {
    exists|
        before: SlotState<Waker>,
        between: SlotState<Waker>,
        skipped: Seq<int>,
        copy: Waker,
    |
        {
            &&& #[trigger] exchanged(lock, before, between.announced(copy))
            &&& #[trigger] before.found_none(between, skipped, pending)
            &&& task::copied(waker, copy)
        }
}

/// Where the queue was left empty and the waker of the task was registered, the next wake-up
/// of a slot whose future was polled and has not completed has an effect, and hands out that
/// waker.
pub proof fn lemma_next_wake_up_wakes(lock: SlotLock, waker: Waker, pending: Seq<bool>)
    requires
        idle(lock, waker, pending),
    ensures
        exists|before: SlotState<Waker>, after: SlotState<Waker>, copy: Waker|
            {
                &&& #[trigger] exchanged(lock, before, after)
                &&& #[trigger] before.done(Act::Announce(copy, pending), after)
                &&& task::copied(waker, copy)
                &&& after.notification() == Some(copy)
                &&& forall|i: int|
                    0 <= i < after.len && #[trigger] after.active[i] ==> !after.queued[i]
            },
{
    let (before, between, skipped, copy) = choose|
        before: SlotState<Waker>,
        between: SlotState<Waker>,
        skipped: Seq<int>,
        copy: Waker,
    |
        {
            &&& #[trigger] exchanged(lock, before, between.announced(copy))
            &&& #[trigger] before.found_none(between, skipped, pending)
            &&& task::copied(waker, copy)
        };
    let after = between.announced(copy);
    assert(before.looked_in_vain(after, copy, pending));
    assert(before.done(Act::Announce(copy, pending), after));
    after.lemma_no_duplicates();
    assert forall|i: int| 0 <= i < after.len && #[trigger] after.active[i] implies !after.queued[i] by {
        assert(!after.ready().contains(i));
    }
}

/// Whether slot `i` was found woken.
pub open spec fn self_woken(lock: SlotLock, i: int) -> bool {
    exists|state: SlotState<Waker>| #[trigger]
        exchanged(lock, state, state) && state.queued[i]
}

/// Whether the slot of future `i` was marked as one whose future has completed.
pub open spec fn marked_complete(lock: SlotLock, i: int) -> bool {
    exists|state: SlotState<Waker>| #[trigger] exchanged(lock, state, state.completed(i))
}

/// Whether the waker of the task was removed.
pub open spec fn closed_off(lock: SlotLock) -> bool {
    exists|state: SlotState<Waker>| #[trigger] exchanged(lock, state, state.closed())
}

/// Whether what was done between `log` and `longer` is that it was looked whether slot `i` is
/// `woken`.
pub open spec fn looks(
    lock: SlotLock,
    i: int,
    woken: bool,
    log: Seq<Note>,
    longer: Seq<Note>,
) -> bool {
    exists|state: SlotState<Waker>|
        {
            &&& #[trigger] exchanged(lock, state, state)
            &&& woken == state.queued[i]
            &&& longer == log.push(Note::Did { before: state, act: Act::Read, after: state })
        }
}

/// Whether what was done between `log` and `longer` is that the slot of future `i` was
/// marked as one whose future has completed.
pub open spec fn completes(lock: SlotLock, i: int, log: Seq<Note>, longer: Seq<Note>) -> bool {
    exists|state: SlotState<Waker>|
        {
            &&& #[trigger] exchanged(lock, state, state.completed(i))
            &&& 0 <= i < state.len
            &&& longer == log.push(
                Note::Did { before: state, act: Act::Complete(i), after: state.completed(i) },
            )
        }
}

/// Whether what was done between `log` and `longer` is that the waker of the task was
/// removed and dropped.
pub open spec fn closes(lock: SlotLock, log: Seq<Note>, longer: Seq<Note>) -> bool {
    exists|state: SlotState<Waker>|
        {
            &&& #[trigger] exchanged(lock, state, state.closed())
            &&& task::dropped(state.parent)
            &&& longer == log.push(
                Note::Did { before: state, act: Act::Close, after: state.closed() },
            )
        }
}

/// Whether slot `i` was woken, and with it the task, if it may have been waiting.
pub open spec fn slot_woken(lock: SlotLock, i: int) -> bool {
    exists|state: SlotState<Waker>|
        {
            &&& #[trigger] exchanged(lock, state, state.woken(i))
            &&& !state.queued[i] ==> (state.notification() matches Some(waker) ==> task::woken(
                waker,
            ))
        }
}

/// The waker of the future of a slot.
pub struct SlotWaker {
    inner: Arc<SlotLock>,
    index: usize,
}

impl SlotWaker {
    #[verifier::type_invariant]
    spec fn in_range(self) -> bool {
        self.index < self.inner.pred().len
    }

    /// The slots.
    pub closed spec fn lock(&self) -> SlotLock {
        *self.inner
    }

    /// The index of the slot.
    pub closed spec fn slot(&self) -> int {
        self.index as int
    }

    /// Enqueues the slot, and wakes the task that polls the futures if it may be
    /// waiting for a wake-up.
    ///
    /// Nothing else is done to the slots by `call`, and the waker of the task that is taken
    /// from them is woken.
    pub(crate) fn wake_slot(&self, call: &mut Call<SlotState<Waker>>)
        ensures
            ({
                let (before, woken, after) = final(call).log().last();
                &&& final(call).log() == old(call).log().push((before, woken, after))
                &&& woken == self.slot()
                &&& after == before.woken(woken)
                &&& exchanged(self.lock(), before, after)
                &&& !before.queued[woken] ==> (before.notification() matches Some(waker)
                    ==> task::woken(waker))
            }),
            slot_woken(self.lock(), self.slot()),
    {
        proof {
            use_type_invariant(self);
        }
        let (mut inner, handle) = take(&self.inner);
        let ghost first = inner;
        let parent: Option<Waker> = inner.wake_by_ref(call, self.index);
        leave(handle, inner, Ghost(first), Ghost(Act::Wake(self.slot())));
        assert(exchanged(self.lock(), first@, first@.woken(self.slot())));
        if let Some(waker) = parent {
            task::wake(waker);
        }
    }
}

/// What `waker` was made from.
pub uninterp spec fn slot_waker(waker: Waker) -> SlotWaker;

/// The conversion of an [`Arc`] of a [`std::task::Wake`] into a [`std::task::Waker`],
/// which wakes by calling it: a waker of what it was made from.
#[verifier::external_body]
fn waker_from_slot(waker: Arc<SlotWaker>) -> (result: Waker)
    ensures
        slot_waker(result) == *waker,
{
    Waker::from(waker)
}

/// Whether `waker` wakes slot `i` of the slots behind `lock`.
pub open spec fn wakes(waker: Waker, lock: SlotLock, i: int) -> bool {
    slot_waker(waker).lock() == lock && slot_waker(waker).slot() == i
}

/// The progress of the elements.
pub open spec fn progress_of<T: PollElem>(elems: Seq<T>) -> Seq<Progress<T::Fut, T::Out>> {
    Seq::new(elems.len(), |i: int| elems[i].progress())
}

/// The futures from position `from` on that have not completed, in order.
pub open spec fn pending_from<F, T>(state: Seq<Progress<F, T>>, from: int) -> Seq<usize> {
    ready_set::listing(progress::pending_of(state), from, state.len() as int)
}

/// Whether poll `k` of `trace` is made as it is to be, where `news` are the futures that
/// were never polled: it polls the next of these, and after them the first whose slot is
/// in the queue, with the waker of its slot. Then what the future has come to is recorded,
/// or it is looked whether it was woken meanwhile, when the slots were in the state that
/// `thens` holds.
pub open spec fn turn<F, T, E>(
    lock: SlotLock,
    start: Seq<Progress<F, T>>,
    news: Seq<usize>,
    trace: Seq<PollEvent<F, T, E>>,
    thens: Seq<SlotState<Waker>>,
    k: int,
) -> bool {
    let i = trace[k].index;
    &&& wakes(trace[k].waker, lock, i)
    &&& if k < news.len() {
        i == news[k] && started(lock, i)
    } else {
        looked(
            lock,
            Dequeue::Data(i as usize),
            progress::pending_of(progress::run(start, trace.take(k))),
        )
    }
    &&& match trace[k].result {
        Poll::Pending => exchanged(lock, thens[k], thens[k]),
        Poll::Ready(Ok(_)) => exchanged(lock, thens[k], thens[k].completed(i)),
        Poll::Ready(Err(_)) => true,
    }
}

/// How many of the first `n` polls of `trace` polled a future that was then found woken,
/// which is taken to mean that it wanted to yield.
pub open spec fn yields<F, T, E>(
    trace: Seq<PollEvent<F, T, E>>,
    thens: Seq<SlotState<Waker>>,
    n: int,
) -> nat
    decreases n,
{
    if n <= 0 {
        0
    } else {
        yields(trace, thens, n - 1) + if trace[n - 1].result is Pending
            && thens[n - 1].queued[trace[n - 1].index] {
            1nat
        } else {
            0nat
        }
    }
}

/// Whether the polls of `trace` are made one after the other as they are to be, where the
/// futures from position `from` on were never polled. None is made after two futures
/// wanted to yield.
pub open spec fn follows<F, T, E>(
    lock: SlotLock,
    start: Seq<Progress<F, T>>,
    from: int,
    trace: Seq<PollEvent<F, T, E>>,
    thens: Seq<SlotState<Waker>>,
) -> bool {
    &&& progress::valid(start, trace)
    &&& thens.len() == trace.len()
    &&& forall|k: int|
        0 <= k < trace.len() ==> #[trigger] turn(
            lock,
            start,
            pending_from(start, from),
            trace,
            thens,
            k,
        )
    &&& forall|k: int| 0 <= k < trace.len() ==> #[trigger] yields(trace, thens, k) < 2
}

/// Whether a call that makes at most `limit` polls, those of `trace`, ends as it is to end.
/// It yields, which wakes the task of `waker`, after `limit` polls or after two futures
/// wanted to. Else it ends when all futures have completed, and none has failed in an earlier
/// call, so that `limit` is the number of those that had not, or one fails, or when all were
/// polled and no woken slot was left in the queue when the waker of the task was registered.
pub open spec fn ends<F, T, E>(
    lock: SlotLock,
    waker: Waker,
    start: Seq<Progress<F, T>>,
    from: int,
    limit: nat,
    result: Poll<Result<(), E>>,
    trace: Seq<PollEvent<F, T, E>>,
    thens: Seq<SlotState<Waker>>,
) -> bool {
    let end = progress::run(start, trace);
    &&& trace.len() <= limit
    &&& match result {
        Poll::Ready(Err(error)) => trace.len() > 0 && trace.last().result == Poll::Ready(
            Err::<T, E>(error),
        ),
        Poll::Ready(Ok(())) => {
            &&& progress::no_failure(trace)
            &&& progress::pending_count(end) == 0
            &&& limit == progress::pending_count(start)
        },
        Poll::Pending => {
            &&& progress::no_failure(trace)
            &&& progress::pending_count(end) > 0 || limit > progress::pending_count(start)
            &&& if trace.len() >= limit || yields(trace, thens, trace.len() as int) >= 2 {
                task::woken(waker)
            } else {
                &&& trace.len() >= pending_from(start, from).len()
                &&& idle(lock, waker, progress::pending_of(end))
            }
        },
    }
}

/// Whether a call, with the polls of `trace`, takes the futures from `start` to `end` and
/// gives `result`.
pub open spec fn runs<F, T, E>(
    lock: SlotLock,
    waker: Waker,
    start: Seq<Progress<F, T>>,
    end: Seq<Progress<F, T>>,
    from: int,
    limit: nat,
    result: Poll<Result<(), E>>,
    gives: Gives<F, T, E>,
    trace: Seq<PollEvent<F, T, E>>,
    thens: Seq<SlotState<Waker>>,
) -> bool {
    &&& progress::told(start, trace, gives)
    &&& follows(lock, start, from, trace, thens)
    &&& ends(lock, waker, start, from, limit, result, trace, thens)
    &&& end == progress::run(start, trace)
}

/// Whether a call that polls the futures that were never polled, which are those from
/// position `from` on, and then those that were woken, can have taken them from `start` to
/// `end` and given `result`. It makes at most `limit` polls.
pub open spec fn may_run<F, T, E>(
    lock: SlotLock,
    waker: Waker,
    start: Seq<Progress<F, T>>,
    end: Seq<Progress<F, T>>,
    from: int,
    limit: nat,
    result: Poll<Result<(), E>>,
    gives: Gives<F, T, E>,
) -> bool {
    exists|trace: Seq<PollEvent<F, T, E>>, thens: Seq<SlotState<Waker>>| #[trigger]
        runs(lock, waker, start, end, from, limit, result, gives, trace, thens)
}

/// Whether a call that makes at most `limit` polls, those of `trace`, and gives `result`
/// leaves it to the next wake-up to wake the task.
pub open spec fn leaves_idle<F, T, E, R>(
    limit: nat,
    result: Poll<R>,
    trace: Seq<PollEvent<F, T, E>>,
    thens: Seq<SlotState<Waker>>,
) -> bool {
    result is Pending && !(trace.len() >= limit || yields(trace, thens, trace.len() as int) >= 2)
}

/// As [`may_run`], of a call that does what `notes` are of and nothing else: it polls these
/// futures, and does to their slots what is to be done. The futures from position `to` on are
/// left to be polled for the first time.
pub open spec fn booked<F, T, E>(
    lock: SlotLock,
    waker: Waker,
    start: Seq<Progress<F, T>>,
    end: Seq<Progress<F, T>>,
    from: int,
    to: int,
    limit: nat,
    result: Poll<Result<(), E>>,
    gives: Gives<F, T, E>,
    notes: Seq<Note>,
) -> bool {
    exists|trace: Seq<PollEvent<F, T, E>>, thens: Seq<SlotState<Waker>>|
        {
            &&& #[trigger] runs(
                lock,
                waker,
                start,
                end,
                from,
                limit,
                result,
                gives,
                trace,
                thens,
            )
            &&& ledger::kept(
                lock,
                waker,
                notes,
                ledger::turns_of(trace),
                progress::pending_of(end),
                leaves_idle(limit, result, trace, thens),
                from,
                to,
            )
            &&& match result {
                Poll::Ready(Err(_)) => notes.len() > 0 && notes.last() == (Note::Polled {
                    index: trace.last().index,
                    ready: true,
                }),
                _ => notes.len() > 0 ==> !(notes.last() is Polled),
            }
        }
}

/// Whether none of the polls of `trace` is made after two futures wanted to yield, where it
/// was looked after each poll whether its future was woken, when the slots were in the
/// state that `thens` holds.
pub open spec fn looks_after<F, T, E>(
    lock: SlotLock,
    trace: Seq<PollEvent<F, T, E>>,
    thens: Seq<SlotState<Waker>>,
) -> bool {
    &&& thens.len() == trace.len()
    &&& forall|k: int|
        0 <= k < trace.len() && (#[trigger] trace[k]).result is Pending ==> exchanged(
            lock,
            thens[k],
            thens[k],
        )
    &&& forall|k: int| 0 <= k < trace.len() ==> #[trigger] yields(trace, thens, k) < 2
}

/// Whether a call that makes at most `limit` polls, those of `trace`, and does not end the
/// wait, pauses it as it is to: it wakes the task of `waker` after `limit` polls or after two
/// futures wanted to yield. Else all futures were polled, and no woken slot was left in the
/// queue when the waker of the task was registered.
pub open spec fn pauses<F, T, E>(
    lock: SlotLock,
    waker: Waker,
    end: Seq<Progress<F, T>>,
    limit: nat,
    trace: Seq<PollEvent<F, T, E>>,
    thens: Seq<SlotState<Waker>>,
) -> bool {
    if trace.len() >= limit || yields(trace, thens, trace.len() as int) >= 2 {
        task::woken(waker)
    } else {
        &&& progress::polled_up_to(end, end.len() as int)
        &&& idle(lock, waker, progress::pending_of(end))
    }
}

/// It is looked as well after polls of the same futures, of which the same ones have
/// completed.
pub proof fn lemma_looks_after<F, T, E, G, U, D>(
    lock: SlotLock,
    start: Seq<Progress<F, T>>,
    from: int,
    trace: Seq<PollEvent<F, T, E>>,
    thens: Seq<SlotState<Waker>>,
    polls: Seq<PollEvent<G, U, D>>,
)
    requires
        follows(lock, start, from, trace, thens),
        polls.len() == trace.len(),
        forall|k: int|
            0 <= k < trace.len() ==> (#[trigger] polls[k]).index == trace[k].index && (
            polls[k].result is Pending <==> trace[k].result is Pending),
    ensures
        looks_after(lock, polls, thens),
        yields(polls, thens, polls.len() as int) == yields(trace, thens, trace.len() as int),
{
    assert forall|k: int|
        0 <= k < polls.len() && (#[trigger] polls[k]).result is Pending implies exchanged(
        lock,
        thens[k],
        thens[k],
    ) by {
        assert(turn(lock, start, pending_from(start, from), trace, thens, k));
    }
    assert forall|k: int| 0 <= k < polls.len() implies #[trigger] yields(polls, thens, k) < 2 by {
        assert(yields(trace, thens, k) < 2);
        lemma_same_yields(trace, polls, thens, k);
    }
    lemma_same_yields(trace, polls, thens, trace.len() as int);
}

/// Polls of the same futures, of which the same ones have completed, yield as often.
proof fn lemma_same_yields<F, T, E, G, U, D>(
    trace: Seq<PollEvent<F, T, E>>,
    polls: Seq<PollEvent<G, U, D>>,
    thens: Seq<SlotState<Waker>>,
    n: int,
)
    requires
        polls.len() == trace.len(),
        n <= trace.len(),
        forall|k: int|
            0 <= k < trace.len() ==> (#[trigger] polls[k]).index == trace[k].index && (
            polls[k].result is Pending <==> trace[k].result is Pending),
    ensures
        yields(polls, thens, n) == yields(trace, thens, n),
    decreases n,
{
    if n > 0 {
        assert(polls[n - 1].index == trace[n - 1].index);
        lemma_same_yields(trace, polls, thens, n - 1);
    }
}

/// One more poll that is made as it is to be.
proof fn lemma_follow<F, T, E>(
    lock: SlotLock,
    start: Seq<Progress<F, T>>,
    from: int,
    trace: Seq<PollEvent<F, T, E>>,
    thens: Seq<SlotState<Waker>>,
    event: PollEvent<F, T, E>,
    then: SlotState<Waker>,
)
    requires
        follows(lock, start, from, trace, thens),
        progress::no_failure(trace),
        0 <= event.index < start.len(),
        progress::run(start, trace)[event.index] is Pending,
        yields(trace, thens, trace.len() as int) < 2,
        wakes(event.waker, lock, event.index),
        if trace.len() < pending_from(start, from).len() {
            event.index == pending_from(start, from)[trace.len() as int] && started(
                lock,
                event.index,
            )
        } else {
            looked(
                lock,
                Dequeue::Data(event.index as usize),
                progress::pending_of(progress::run(start, trace)),
            )
        },
        match event.result {
            Poll::Pending => exchanged(lock, then, then),
            Poll::Ready(Ok(_)) => exchanged(lock, then, then.completed(event.index)),
            Poll::Ready(Err(_)) => true,
        },
    ensures
        follows(lock, start, from, trace.push(event), thens.push(then)),
        yields(trace.push(event), thens.push(then), (trace.len() + 1) as int) == yields(
            trace,
            thens,
            trace.len() as int,
        ) + (if event.result is Pending && then.queued[event.index] {
            1int
        } else {
            0int
        }),
{
    let news = pending_from(start, from);
    let longer = trace.push(event);
    let states = thens.push(then);
    progress::lemma_run_step(start, trace, event);
    assert forall|k: int| 0 <= k < longer.len() implies #[trigger] turn(
        lock,
        start,
        news,
        longer,
        states,
        k,
    ) by {
        if k < trace.len() {
            assert(turn(lock, start, news, trace, thens, k));
            assert(longer.take(k) =~= trace.take(k));
        } else {
            assert(longer.take(k) =~= trace);
        }
    }
    assert forall|k: int| 0 <= k < longer.len() implies #[trigger] yields(longer, states, k) < 2 by {
        lemma_yields_same(trace, thens, longer, states, k);
        if k < trace.len() {
            assert(yields(trace, thens, k) < 2);
        }
    }
    lemma_yields_same(trace, thens, longer, states, trace.len() as int);
}

/// Polls that are not the first ones make no difference to how many of these yielded.
proof fn lemma_yields_same<F, T, E>(
    trace: Seq<PollEvent<F, T, E>>,
    thens: Seq<SlotState<Waker>>,
    longer: Seq<PollEvent<F, T, E>>,
    states: Seq<SlotState<Waker>>,
    n: int,
)
    requires
        n <= trace.len() <= longer.len(),
        thens.len() == trace.len(),
        states.len() == longer.len(),
        forall|k: int| 0 <= k < trace.len() ==> #[trigger] longer[k] == trace[k],
        forall|k: int| 0 <= k < trace.len() ==> #[trigger] states[k] == thens[k],
    ensures
        yields(longer, states, n) == yields(trace, thens, n),
    decreases n,
{
    if n > 0 {
        lemma_yields_same(trace, thens, longer, states, n - 1);
    }
}

/// After the first `k` polls, the first `k` futures that were never polled before were, and
/// no others of them.
proof fn lemma_first_polls<F, T, E>(
    lock: SlotLock,
    start: Seq<Progress<F, T>>,
    from: int,
    trace: Seq<PollEvent<F, T, E>>,
    thens: Seq<SlotState<Waker>>,
    k: int,
    i: int,
)
    requires
        follows(lock, start, from, trace, thens),
        0 <= k <= trace.len(),
        0 <= from <= start.len() < usize::MAX,
        forall|i: int|
            0 <= i < start.len() ==> (progress::fresh(#[trigger] start[i]) <==> from <= i),
        0 <= i < start.len(),
    ensures
        progress::run(start, trace.take(k)).len() == start.len(),
        k >= pending_from(start, from).len() ==> !progress::fresh(
            progress::run(start, trace.take(k))[i],
        ),
        k < pending_from(start, from).len() ==> (progress::fresh(
            progress::run(start, trace.take(k))[i],
        ) <==> pending_from(start, from)[k] <= i),
{
    let flags = progress::pending_of(start);
    let news = pending_from(start, from);
    let first = trace.take(k);
    progress::lemma_valid_take(start, trace, k);
    progress::lemma_run_len(start, first);
    progress::lemma_polled_differs(start, first, i);
    if progress::run(start, first)[i] is Pending {
        progress::lemma_pending_stays(start, first, i);
    }
    ready_set::lemma_listing(flags, from, start.len() as int);
    assert forall|j: int| 0 <= j < trace.len() && j < news.len() implies (#[trigger]
    trace[j]).index == news[j] by {
        assert(turn(lock, start, news, trace, thens, j));
    }
    if from <= i {
        assert(flags[i]);
        let j = news.index_of(i as usize);
        assert(news[j] == i);
        if j < k {
            progress::lemma_times(first, j);
        } else {
            assert forall|n: int| 0 <= n < first.len() implies (#[trigger] first[n]).index != i by {
                assert(first[n] == trace[n]);
                assert(news[n] < news[j]);
            }
            progress::lemma_times_none(first, i);
            assert(k == j || news[k] < news[j]);
        }
        assert(j < k ==> k >= news.len() || news[j] < news[k]);
    } else if k < news.len() {
        assert(from <= news[k]);
    }
}

/// A call that pauses the wait as it is to sees to it that it is made again.
pub proof fn lemma_pause_waits<F, T, E>(
    lock: SlotLock,
    waker: Waker,
    start: Seq<Progress<F, T>>,
    end: Seq<Progress<F, T>>,
    trace: Seq<PollEvent<F, T, E>>,
    thens: Seq<SlotState<Waker>>,
)
    requires
        pauses(lock, waker, end, progress::pending_count(start), trace, thens),
        looks_after(lock, trace, thens),
    ensures
        progress::waits(start, end, trace, Manner::Slots(lock, waker)),
{
    lemma_yielded_twice(lock, trace, thens, trace.len() as int);
}

/// Two polls that polled futures that wanted to yield.
proof fn lemma_yielded_twice<F, T, E>(
    lock: SlotLock,
    trace: Seq<PollEvent<F, T, E>>,
    thens: Seq<SlotState<Waker>>,
    n: int,
)
    requires
        0 <= n <= trace.len(),
        forall|k: int|
            0 <= k < n && (#[trigger] trace[k]).result is Pending ==> exchanged(
                lock,
                thens[k],
                thens[k],
            ),
    ensures
        yields(trace, thens, n) >= 1 ==> exists|k: int|
            0 <= k < n && progress::yielded(lock, #[trigger] trace[k]),
        yields(trace, thens, n) >= 2 ==> progress::yielded_twice(lock, trace),
    decreases n,
{
    if n > 0 {
        lemma_yielded_twice(lock, trace, thens, n - 1);
        if trace[n - 1].result is Pending && thens[n - 1].queued[trace[n - 1].index] {
            assert(exchanged(lock, thens[n - 1], thens[n - 1]));
            assert(self_woken(lock, trace[n - 1].index));
            assert(progress::yielded(lock, trace[n - 1]));
            if yields(trace, thens, n - 1) >= 1 {
                let j = choose|k: int|
                    0 <= k < n - 1 && progress::yielded(lock, #[trigger] trace[k]);
                assert(progress::yielded(lock, trace[j]));
            }
        }
    }
}

/// A call that polls the futures as it is to polls each in its turn, and sees to it that it
/// is made again when a future can go on.
pub proof fn lemma_runs_in_turn<F, T, E>(
    lock: SlotLock,
    waker: Waker,
    start: Seq<Progress<F, T>>,
    end: Seq<Progress<F, T>>,
    from: int,
    limit: nat,
    result: Poll<Result<(), E>>,
    gives: Gives<F, T, E>,
    trace: Seq<PollEvent<F, T, E>>,
    thens: Seq<SlotState<Waker>>,
)
    requires
        runs(lock, waker, start, end, from, limit, result, gives, trace, thens),
        limit == progress::pending_count(start),
        0 <= from <= start.len() < usize::MAX,
        forall|i: int|
            0 <= i < start.len() ==> (progress::fresh(#[trigger] start[i]) <==> from <= i),
    ensures
        progress::advances(start, end, result, limit, Manner::Slots(lock, waker), trace),
        result is Pending ==> pauses(lock, waker, end, limit, trace, thens),
{
    let news = pending_from(start, from);
    assert forall|k: int| 0 <= k < trace.len() implies #[trigger] progress::in_turn(
        lock,
        start,
        trace,
        k,
    ) by {
        assert(turn(lock, start, news, trace, thens, k));
        progress::lemma_valid_take(start, trace, k);
        let now = progress::run(start, trace.take(k));
        let i = trace[k].index;
        lemma_first_polls(lock, start, from, trace, thens, k, i);
        assert forall|j: int| 0 <= j < now.len() implies (progress::fresh(#[trigger] now[j])
            <==> k < news.len() && news[k] <= j) by {
            lemma_first_polls(lock, start, from, trace, thens, k, j);
        }
    }
    if result is Pending {
        assert(trace.take(trace.len() as int) =~= trace);
        progress::lemma_run_len(start, trace);
        if trace.len() >= news.len() {
            assert forall|j: int| 0 <= j < end.len() implies !progress::fresh(#[trigger] end[j]) by {
                lemma_first_polls(lock, start, from, trace, thens, trace.len() as int, j);
            }
        }
        assert forall|k: int|
            0 <= k < trace.len() && (#[trigger] trace[k]).result is Pending implies exchanged(
            lock,
            thens[k],
            thens[k],
        ) by {
            assert(turn(lock, start, news, trace, thens, k));
        }
        lemma_yielded_twice(lock, trace, thens, trace.len() as int);
    }
}

/// The wakers of a fixed number of futures and the queue of woken futures.
pub struct SlotWakers {
    inner: Arc<SlotLock>,
    /// One waker per slot.
    wakers: Vec<Waker>,
    /// The index of the first future that has never been polled.
    unpolled: usize,
    /// The number of futures that have not completed.
    remaining: usize,
    /// What was done to the slots and the futures.
    ledger: Ledger,
}

impl SlotWakers {
    /// The slots.
    pub closed spec fn lock(&self) -> SlotLock {
        *self.inner
    }

    /// The number of futures.
    pub closed spec fn len(&self) -> nat {
        self.wakers@.len()
    }

    /// The number of futures that have not completed.
    pub closed spec fn remaining(&self) -> nat {
        self.remaining as nat
    }

    /// The index of the first future that has never been polled.
    pub closed spec fn unpolled(&self) -> nat {
        self.unpolled as nat
    }

    /// What was done to the slots, other than by their wakers, and to the futures, one
    /// after the other.
    pub closed spec fn log(&self) -> Seq<Note> {
        self.ledger.log()
    }

    /// There are as many slots as futures, and each waker wakes its slot.
    pub closed spec fn wf(&self) -> bool {
        &&& self.inner.pred().len == self.wakers@.len()
        &&& self.inner.pred().id == self.ledger.id()
        &&& self.unpolled <= self.wakers@.len()
        &&& forall|i: int|
            0 <= i < self.wakers@.len() ==> wakes(#[trigger] self.wakers@[i], self.lock(), i)
    }

    /// Creates the wakers for `len` futures.
    pub fn new(len: usize) -> (wakers: Self)
        requires
            len < usize::MAX,
        ensures
            wakers.wf(),
            begins(wakers.lock(), SlotState::initial(len as int)),
            wakers.len() == len,
            wakers.unpolled() == 0,
            wakers.remaining() == len,
            wakers.log() == Seq::<Note>::empty(),
    {
        let (slots, ledger) = Guarded::new(len);
        let ghost pred = SlotsPred { len, id: ledger.id() };
        let make = SlotLock::new;
        let inner: Arc<SlotLock> = Arc::new(make(slots, Ghost(pred)));
        assert(begins(*inner, SlotState::initial(len as int)));
        let mut wakers: Vec<Waker> = Vec::new();
        while wakers.len() < len
            invariant
                wakers.len() <= len,
                inner.pred().len == len,
                inner.pred().id == ledger.id(),
                begins(*inner, SlotState::initial(len as int)),
                forall|i: int| 0 <= i < wakers.len() ==> wakes(#[trigger] wakers@[i], *inner, i),
            decreases len - wakers.len(),
        {
            let waker: SlotWaker = SlotWaker { inner: inner.clone(), index: wakers.len() };
            wakers.push(waker_from_slot(Arc::new(waker)));
        }
        SlotWakers { inner, wakers, unpolled: 0, remaining: len, ledger }
    }

    /// Returns the slot of the next future to poll: the first that was never
    /// polled, or else the first in the queue, whose future has not completed. If
    /// there is none, registers a copy of `waker`, the waker of the task that polls
    /// the futures, and announces that that task may wait for a wake-up.
    fn next_slot<T: PollElem>(&mut self, elems: &Vec<T>, waker: &Waker) -> (result: Option<usize>)
        requires
            old(self).wf(),
            elems.len() == old(self).len(),
        ensures
            final(self).wf(),
            final(self).lock() == old(self).lock(),
            final(self).len() == old(self).len(),
            final(self).remaining() == old(self).remaining(),
            old(self).unpolled() <= final(self).unpolled() <= elems.len(),
            result matches Some(i) ==> i < elems.len() && elems[i as int].progress() is Pending,
            if result matches Some(i) && old(self).unpolled() <= i && final(self).unpolled() == i
                + 1 && started(old(self).lock(), i as int) {
                forall|j: int|
                    old(self).unpolled() <= j < result->0 ==> (#[trigger] elems[j]).progress()
                        !is Pending
            } else {
                &&& final(self).unpolled() == elems.len()
                &&& forall|j: int|
                    old(self).unpolled() <= j < elems.len() ==> (#[trigger] elems[j]).progress()
                        !is Pending
                &&& match result {
                    Some(i) => looked(
                        old(self).lock(),
                        Dequeue::Data(i),
                        slots::pending_flags(elems@),
                    ),
                    None => idle(old(self).lock(), *waker, slots::pending_flags(elems@)),
                }
            },
            final(self).log() == old(self).log() + ledger::added(
                old(self).log(),
                final(self).log(),
            ),
            ledger::searches(
                old(self).lock(),
                *waker,
                ledger::added(old(self).log(), final(self).log()),
                result,
                slots::pending_flags(elems@),
                old(self).unpolled() as int,
                final(self).unpolled() as int,
            ),
    {
        let ghost pending = slots::pending_flags(elems@);
        let ghost log = self.log();
        while self.unpolled < self.wakers.len()
            invariant
                self.wf(),
                self.lock() == old(self).lock(),
                self.len() == old(self).len(),
                self.remaining() == old(self).remaining(),
                self.log() == log,
                log == old(self).log(),
                elems.len() == self.len(),
                old(self).unpolled() <= self.unpolled(),
                forall|i: int|
                    old(self).unpolled() <= i < self.unpolled() ==> (#[trigger] elems[i]).progress()
                        !is Pending,
            decreases self.len() - self.unpolled(),
        {
            let index: usize = self.unpolled;
            self.unpolled = index + 1;
            if elems[index].is_pending() {
                let (mut inner, handle) = take(&self.inner);
                let ghost first = inner;
                inner.start(&mut self.ledger, index);
                leave(handle, inner, Ghost(first), Ghost(Act::Start(index as int)));
                assert(exchanged(self.lock(), first@, first@.started(index as int)));
                assert(ledger::added(log, self.log()) =~= self.log().skip(log.len() as int));
                assert(self.log() =~= log + ledger::added(log, self.log()));
                assert(first@.done(Act::Start(index as int), inner@));
                reveal(ledger::searches);
                return Some(index);
            }
        }
        let (mut inner, handle) = take(&self.inner);
        let ghost first = inner;
        let result: Dequeue = inner.next(&mut self.ledger, elems);
        let ghost after = inner@;
        assert(first@.looked(after, result, pending));
        leave(handle, inner, Ghost(first), Ghost(Act::Look(result, pending)));
        assert(exchanged(self.lock(), first@, after));
        assert(self.log() =~= log + ledger::added(log, self.log()));
        if let Dequeue::Data(index) = result {
            proof {
                reveal(ledger::searches);
                let skipped = choose|skipped: Seq<int>| #[trigger]
                    first@.moved_on(after, result, skipped, pending);
                assert(first@.moved_on(after, result, skipped, pending));
            }
            return Some(index);
        }
        let ghost looked = self.log();
        let found: Option<usize> = self.park(elems, waker);
        proof {
            reveal(ledger::searches);
            let notes = ledger::added(log, self.log());
            let last = self.log().last();
            assert(seq![last][0] == last);
            assert(notes =~= seq![looked.last(), last]);
            assert(self.log() =~= log + notes);
        }
        found
    }

    /// Returns the first slot in the queue whose future has not completed. If there
    /// is none, registers a copy of `waker` and announces that its task may wait for a
    /// wake-up, before any other slot can be woken.
    fn park<T: PollElem>(&mut self, elems: &Vec<T>, waker: &Waker) -> (result: Option<usize>)
        requires
            old(self).wf(),
            elems.len() == old(self).len(),
        ensures
            final(self).wf(),
            final(self).lock() == old(self).lock(),
            final(self).len() == old(self).len(),
            final(self).unpolled() == old(self).unpolled(),
            final(self).remaining() == old(self).remaining(),
            match result {
                Some(i) => i < elems.len() && elems[i as int].progress() is Pending && looked(
                    old(self).lock(),
                    Dequeue::Data(i),
                    slots::pending_flags(elems@),
                ),
                None => idle(old(self).lock(), *waker, slots::pending_flags(elems@)),
            },
            final(self).log() == old(self).log().push(final(self).log().last()),
            ledger::searches(
                old(self).lock(),
                *waker,
                seq![final(self).log().last()],
                result,
                slots::pending_flags(elems@),
                0,
                0,
            ),
            final(self).log().last() matches Note::Did { before: _, act, after: _ } && !(
            act is Start),
    {
        let copy: Waker = task::copy(waker);
        let ghost parent = copy;
        let ghost pending = slots::pending_flags(elems@);
        let (mut inner, handle) = take(&self.inner);
        let ghost first = inner;
        let result: Option<usize> = inner.next_or_park(&mut self.ledger, elems, copy);
        let ghost after = inner@;
        let ghost act = match result {
            Some(i) => Act::Look(Dequeue::Data(i), pending),
            None => Act::Announce(parent, pending),
        };
        proof {
            match result {
                Some(i) => {
                    assert(first@.looked(after, Dequeue::Data(i), pending));
                },
                None => {
                    assert(first@.looked_in_vain(after, parent, pending));
                },
            }
            assert(first@.done(act, after));
        }
        leave(handle, inner, Ghost(first), Ghost(act));
        proof {
            reveal(ledger::searches);
            assert(exchanged(self.lock(), first@, after));
            match result {
                Some(i) => {
                    let skipped = choose|skipped: Seq<int>| #[trigger]
                        first@.moved_on(after, Dequeue::Data(i), skipped, pending);
                    assert(first@.moved_on(after, Dequeue::Data(i), skipped, pending));
                },
                None => {
                    let (between, skipped) = choose|
                        between: SlotState<Waker>,
                        skipped: Seq<int>,
                    | #[trigger]
                        first@.found_none(between, skipped, pending) && after
                            == between.announced(parent);
                    assert(exchanged(self.lock(), first@, between.announced(parent)));
                },
            }
        }
        result
    }

    /// Tells whether waking slot `index` does nothing: for a slot whose future was just
    /// polled and has not completed, whether it was woken meanwhile.
    fn was_woken(&mut self, index: usize) -> (woken: bool)
        requires
            old(self).wf(),
            index < old(self).len(),
        ensures
            final(self).wf(),
            final(self).lock() == old(self).lock(),
            final(self).len() == old(self).len(),
            final(self).unpolled() == old(self).unpolled(),
            final(self).remaining() == old(self).remaining(),
            looks(old(self).lock(), index as int, woken, old(self).log(), final(self).log()),
    {
        let (inner, handle) = take(&self.inner);
        let ghost first = inner;
        let woken: bool = inner.was_woken(&mut self.ledger, index);
        leave(handle, inner, Ghost(first), Ghost(Act::Read));
        assert(exchanged(self.lock(), first@, first@));
        woken
    }

    /// Records that the future of slot `index` has completed, so that later
    /// wake-ups of it have no effect.
    pub fn complete(&mut self, index: usize)
        requires
            old(self).wf(),
            index < old(self).len(),
            old(self).remaining() > 0,
        ensures
            final(self).wf(),
            final(self).lock() == old(self).lock(),
            final(self).len() == old(self).len(),
            final(self).unpolled() == old(self).unpolled(),
            final(self).remaining() == old(self).remaining() - 1,
            marked_complete(old(self).lock(), index as int),
            completes(old(self).lock(), index as int, old(self).log(), final(self).log()),
    {
        let (mut inner, handle) = take(&self.inner);
        let ghost first = inner;
        inner.complete(&mut self.ledger, index);
        leave(handle, inner, Ghost(first), Ghost(Act::Complete(index as int)));
        assert(exchanged(self.lock(), first@, first@.completed(index as int)));
        self.remaining = self.remaining - 1;
    }

    /// Polls the elements that may be able to make progress.
    ///
    /// These are the elements that were never polled, in order, and then those that
    /// were woken. This returns `Poll::Ready(Ok(()))` once all elements have
    /// completed, or the first error returned by an element. It yields to the
    /// executor after polling as many elements as were incomplete, or after two
    /// elements woke themselves. After an error it may be called again, and polls the other
    /// elements, but does not complete.
    ///
    /// What is done to the slots and the futures is all that is added to the log. The contract
    /// says that the task was woken where it was to be. That it was not woken more often it
    /// does not say.
    #[verifier::rlimit(80)]
    #[verifier::spinoff_prover]
    pub fn poll<T: PollElem>(&mut self, elems: &mut Vec<T>, cx: &mut Context<'_>) -> (result: Poll<
        Result<(), T::Error>,
    >)
        requires
            old(self).wf(),
            old(elems).len() == old(self).len(),
            old(self).remaining() >= progress::pending_count(progress_of(old(elems)@)),
            progress::all_live(progress_of(old(elems)@)),
        ensures
            final(self).wf(),
            final(self).lock() == old(self).lock(),
            final(self).len() == old(self).len(),
            final(elems).len() == old(elems).len(),
            *final(cx) == *old(cx),
            may_run(
                old(self).lock(),
                task::context_waker(*old(cx)),
                progress_of(old(elems)@),
                progress_of(final(elems)@),
                old(self).unpolled() as int,
                old(self).remaining(),
                result,
                maybe_done::giving::<T>(),
            ),
            final(self).log() == old(self).log() + ledger::added(
                old(self).log(),
                final(self).log(),
            ),
            booked(
                old(self).lock(),
                task::context_waker(*old(cx)),
                progress_of(old(elems)@),
                progress_of(final(elems)@),
                old(self).unpolled() as int,
                final(self).unpolled() as int,
                old(self).remaining(),
                result,
                maybe_done::giving::<T>(),
                ledger::added(old(self).log(), final(self).log()),
            ),
            progress::went_on(
                progress_of(old(elems)@),
                progress_of(final(elems)@),
                old(self).unpolled(),
                final(self).unpolled(),
                result is Pending,
            ),
            old(self).remaining() == 0 ==> final(elems)@ == old(elems)@,
            final(self).remaining() + progress::pending_count(progress_of(old(elems)@))
                == old(self).remaining() + progress::pending_count(progress_of(final(elems)@)) + (
            if result matches Poll::Ready(Err(_)) {
                1int
            } else {
                0int
            }),
    {
        let ghost start = progress_of(elems@);
        let ghost from = self.unpolled();
        let ghost lock = self.lock();
        let ghost task_waker = task::context_waker(*cx);
        let ghost gives = maybe_done::giving::<T>();
        let ghost flags = progress::pending_of(start);
        let ghost news = pending_from(start, from as int);
        let ghost mut trace: Seq<PollEvent<T::Fut, T::Out, T::Error>> = Seq::empty();
        let ghost mut thens: Seq<SlotState<Waker>> = Seq::empty();
        let ghost log = self.log();
        let ghost mut notes: Seq<Note> = Seq::empty();
        proof {
            progress::lemma_pending_count_zero(start);
            progress::lemma_pending_count_skip(start, from as int);
            assert(log + notes =~= log);
            assert(ledger::added(log, log) =~= notes);
            ledger::lemma_kept_empty(lock, task_waker, progress::pending_of(start), from as int);
            assert(ledger::turns_of(trace) =~= Seq::empty());
        }
        if self.remaining == 0 {
            proof {
                progress::lemma_polls_go_on(start, trace, from, from, false);
                assert(runs(
                    lock,
                    task_waker,
                    start,
                    start,
                    from as int,
                    0,
                    Poll::Ready(Ok::<(), T::Error>(())),
                    gives,
                    trace,
                    thens,
                ));
            }
            return Poll::Ready(Ok(()));
        }
        let mut budget: Budget = Budget::new(self.remaining);

        loop
            invariant
                self.wf(),
                self.lock() == lock,
                lock == old(self).lock(),
                self.len() == old(self).len(),
                elems.len() == self.len(),
                elems.len() == old(elems).len(),
                *cx == *old(cx),
                task_waker == task::context_waker(*old(cx)),
                start == progress_of(old(elems)@),
                start.len() == elems.len(),
                progress::all_live(start),
                from == old(self).unpolled(),
                flags == progress::pending_of(start),
                news == pending_from(start, from as int),
                old(self).remaining() > 0,
                old(self).remaining() >= progress::pending_count(start),
                gives == maybe_done::giving::<T>(),
                progress::told(start, trace, gives),
                budget.limit() == old(self).remaining(),
                follows(lock, start, from as int, trace, thens),
                yields(trace, thens, trace.len() as int) == budget.yielded(),
                progress::no_failure(trace),
                progress_of(elems@) == progress::run(start, trace),
                trace.len() == budget.polled(),
                budget.yielded() <= budget.polled(),
                !budget.spent(),
                log == old(self).log(),
                self.log() == log + notes,
                ledger::kept(
                    lock,
                    task_waker,
                    notes,
                    ledger::turns_of(trace),
                    progress::pending_of(progress_of(elems@)),
                    false,
                    from as int,
                    self.unpolled() as int,
                ),
                notes.len() > 0 ==> !(notes.last() is Polled),
                self.remaining() > 0,
                self.remaining() + progress::pending_count(start) == old(self).remaining()
                    + progress::pending_count(progress_of(elems@)),
                from <= self.unpolled() <= start.len(),
                ready_set::listing(flags, from as int, self.unpolled() as int).len() <= trace.len(),
                trace.len() > ready_set::listing(
                    flags,
                    from as int,
                    self.unpolled() as int,
                ).len() ==> ready_set::listing(
                    flags,
                    self.unpolled() as int,
                    start.len() as int,
                ).len() == 0,
                forall|i: int|
                    from <= i < self.unpolled() && #[trigger] start[i] is Pending
                        ==> progress::times(trace, i) > 0,
                forall|i: int|
                    self.unpolled() <= i < start.len() ==> #[trigger] progress::run(start, trace)[i]
                        == start[i],
                ({
                    ||| forall|i: int|
                        self.unpolled() <= i < start.len() ==> #[trigger] start[i] !is Pending
                    ||| trace.len() + progress::pending_count(start.skip(self.unpolled() as int))
                        <= budget.limit() && trace.len() <= self.unpolled() - from
                }),
            decreases budget.limit() - budget.polled(),
        {
            let ghost before = progress_of(elems@);
            let ghost to = self.unpolled() as int;
            let ghost earlier_log = self.log();
            let slot: Option<usize> = self.next_slot(elems, cx.waker());
            let ghost now = self.unpolled() as int;
            let ghost search = ledger::added(earlier_log, self.log());
            let ghost flags_now = progress::pending_of(before);
            let ghost turns = ledger::turns_of(trace);
            proof {
                ready_set::lemma_listing_split(flags, from as int, to, start.len() as int);
                ready_set::lemma_listing_split(flags, from as int, now, start.len() as int);
                ready_set::lemma_listing_split(flags, from as int, to, now);
                assert forall|i: int|
                    to <= i < now && slot != Some(i as usize) implies #[trigger]
                    start[i] !is Pending by {
                    assert(before[i] == elems@[i].progress());
                    assert(progress::run(start, trace)[i] == start[i]);
                }
                assert(slots::pending_flags(elems@) =~= progress::pending_of(before));
                if slot is None {
                    ready_set::lemma_listing_empty(flags, to, start.len() as int);
                    progress::lemma_polls_go_on(start, trace, from, self.unpolled(), true);
                    ledger::lemma_search_ends(lock, task_waker, search, flags_now, to, now);
                    ledger::lemma_kept_concat(
                        lock,
                        task_waker,
                        notes,
                        turns,
                        flags_now,
                        from as int,
                        to,
                        search,
                        Seq::empty(),
                        flags_now,
                        true,
                        now,
                    );
                    assert(turns + Seq::<(int, bool)>::empty() =~= turns);
                    assert(self.log() =~= log + (notes + search));
                    assert(ledger::added(log, self.log()) =~= notes + search);
                    assert((notes + search).last() == search.last());
                }
            }
            let index: usize = match slot {
                Some(index) => index,
                None => {
                    assert(runs(
                        lock,
                        task_waker,
                        start,
                        before,
                        from as int,
                        budget.limit(),
                        Poll::<Result<(), T::Error>>::Pending,
                        gives,
                        trace,
                        thens,
                    ));
                    return Poll::Pending;
                },
            };

            let ghost earlier = trace;
            let ghost i = index as int;
            proof {
                progress::lemma_all_live(start, trace);
                assert(before[i] == elems@[i].progress());
                if to <= i && now == i + 1 && started(lock, i) {
                    ready_set::lemma_listing_empty(flags, to, i);
                    assert(flags[i]);
                    assert(ready_set::listing(flags, to, now) =~= seq![index]);
                    progress::lemma_pending_count_from(start, to, i);
                } else {
                    ready_set::lemma_listing_empty(flags, to, start.len() as int);
                }
            }
            let mut slot_cx: Context<'_> = Context::from_waker(&self.wakers[index]);
            let ghost waker = task::context_waker(slot_cx);
            let signal: Poll<Result<(), T::Error>> = self.ledger.poll_elem(
                elems,
                index,
                &mut slot_cx,
            );
            let ghost seen = signal;
            let ghost event = PollEvent {
                index: i,
                waker,
                left: task::context_waker(slot_cx),
                moved: elems@[i].progress()->Pending_0.pointer,
                result: progress::returned(elems@[i].progress(), signal),
            };
            proof {
                progress::lemma_pending_stays(start, trace, i);
                progress::lemma_run_step(start, trace, event);
                progress::lemma_told_step(start, trace, event, gives);
                progress::lemma_pending_count_update(before, i, elems@[i].progress());
                assert(progress_of(elems@) =~= before.update(i, elems@[i].progress()));
                trace = trace.push(event);
                assert(trace.drop_last() =~= earlier);
                assert forall|j: int| from <= j < self.unpolled() && #[trigger] start[j]
                    is Pending implies progress::times(trace, j) > 0 by {}
                progress::lemma_pending_count_zero(start.skip(now));
                if progress::pending_count(start.skip(now)) == 0 {
                    assert forall|j: int| now <= j < start.len() implies #[trigger]
                        start[j] !is Pending by {
                        assert(start.skip(now)[j - now] !is Pending);
                    }
                }
                progress::lemma_polls_go_on(start, trace, from, self.unpolled(), false);
            }
            let ghost ready = signal is Ready;
            let ghost polled = search.push(Note::Polled { index: i, ready });
            let ghost pending = progress::pending_of(progress_of(elems@));
            proof {
                assert(self.log() =~= log + (notes + polled));
                assert forall|j: int| 0 <= j < pending.len() && #[trigger] pending[j] implies
                    flags_now[j] by {}
                assert(trace.last().result is Ready <==> ready);
                assert(ledger::turns_of(trace) =~= turns.push((i, ready)));
            }

            let woken: bool = match signal {
                Poll::Ready(Ok(())) => {
                    self.complete(index);
                    proof {
                        let then = choose|state: SlotState<Waker>|
                            {
                                &&& #[trigger] exchanged(lock, state, state.completed(i))
                                &&& self.log() == (log + (notes + polled)).push(
                                    Note::Did {
                                        before: state,
                                        act: Act::Complete(i),
                                        after: state.completed(i),
                                    },
                                )
                            };
                        lemma_follow(lock, start, from as int, earlier, thens, event, then);
                        thens = thens.push(then);
                        let rest = seq![self.log().last()];
                        notes = ledger::lemma_turn_added(
                            lock,
                            task_waker,
                            notes,
                            turns,
                            flags_now,
                            from as int,
                            to,
                            search,
                            index,
                            ready,
                            rest,
                            pending,
                            now,
                        );
                        assert(self.log() =~= log + notes);
                        assert(ledger::added(log, self.log()) =~= notes);
                    }
                    if self.remaining == 0 {
                        assert(runs(
                            lock,
                            task_waker,
                            start,
                            progress_of(elems@),
                            from as int,
                            budget.limit(),
                            Poll::Ready(Ok::<(), T::Error>(())),
                            gives,
                            trace,
                            thens,
                        ));
                        return Poll::Ready(Ok(()));
                    }
                    false
                },
                Poll::Ready(Err(error)) => {
                    proof {
                        let then: SlotState<Waker> = arbitrary();
                        lemma_follow(lock, start, from as int, earlier, thens, event, then);
                        thens = thens.push(then);
                        let rest: Seq<Note> = Seq::empty();
                        notes = ledger::lemma_turn_added(
                            lock,
                            task_waker,
                            notes,
                            turns,
                            flags_now,
                            from as int,
                            to,
                            search,
                            index,
                            ready,
                            rest,
                            pending,
                            now,
                        );
                        assert(self.log() =~= log + notes);
                        assert(ledger::added(log, self.log()) =~= notes);
                        assert(runs(
                            lock,
                            task_waker,
                            start,
                            progress_of(elems@),
                            from as int,
                            budget.limit(),
                            seen,
                            gives,
                            trace,
                            thens,
                        ));
                    }
                    return Poll::Ready(Err(error));
                },
                Poll::Pending => {
                    let woken: bool = self.was_woken(index);
                    proof {
                        let then = choose|state: SlotState<Waker>|
                            {
                                &&& #[trigger] exchanged(lock, state, state)
                                &&& woken == state.queued[i]
                                &&& self.log() == (log + (notes + polled)).push(
                                    Note::Did { before: state, act: Act::Read, after: state },
                                )
                            };
                        lemma_follow(lock, start, from as int, earlier, thens, event, then);
                        thens = thens.push(then);
                        let rest = seq![self.log().last()];
                        notes = ledger::lemma_turn_added(
                            lock,
                            task_waker,
                            notes,
                            turns,
                            flags_now,
                            from as int,
                            to,
                            search,
                            index,
                            ready,
                            rest,
                            pending,
                            now,
                        );
                        assert(self.log() =~= log + notes);
                        assert(ledger::added(log, self.log()) =~= notes);
                    }
                    woken
                },
            };
            if budget.spend(woken) {
                proof {
                    progress::lemma_polls_go_on(start, trace, from, self.unpolled(), true);
                }
                task::wake_by_ref(cx.waker());
                assert(runs(
                    lock,
                    task_waker,
                    start,
                    progress_of(elems@),
                    from as int,
                    budget.limit(),
                    Poll::<Result<(), T::Error>>::Pending,
                    gives,
                    trace,
                    thens,
                ));
                return Poll::Pending;
            }
        }
    }

    /// Drops the waker of the task that polls the futures. Wakers can outlive
    /// `self`, and then don't wake a task that no longer polls the futures. The contract
    /// does not say that nobody is woken.
    pub fn close(&mut self)
        requires
            old(self).wf(),
        ensures
            final(self).wf(),
            final(self).lock() == old(self).lock(),
            final(self).len() == old(self).len(),
            final(self).unpolled() == old(self).unpolled(),
            final(self).remaining() == old(self).remaining(),
            closed_off(old(self).lock()),
            closes(old(self).lock(), old(self).log(), final(self).log()),
    {
        let (mut inner, handle) = take(&self.inner);
        let ghost first = inner;
        let parent: Option<Waker> = inner.take_parent(&mut self.ledger);
        leave(handle, inner, Ghost(first), Ghost(Act::Close));
        assert(exchanged(self.lock(), first@, first@.closed()));
        task::discard(parent);
    }
}

} // verus!
