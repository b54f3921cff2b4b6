//! A set of futures that complete in any order.
use crate::ledger;
use crate::ledger::Note;
use crate::maybe_done;
use crate::maybe_done::PollElem;
use crate::progress;
use crate::progress::{Gives, Manner, PollEvent, Progress, Waiting};
use crate::slot_wakers;
use crate::slot_wakers::{SlotLock, SlotWakers};
use crate::slots::{Act, SlotState};
use crate::task;
use crate::task::Pinned;
use std::future::Future;
use std::task::{Context, Poll, Waker};
use vstd::prelude::*;

verus! {

/// A future or an output, together with the position of the future.
pub struct OrderWrapper<T> {
    pub data: T,
    pub index: usize,
}

/// A place for a future, which is empty once the future has completed.
#[verifier::reject_recursive_types(F)]
struct Entry<F: Future> {
    future: Option<OrderWrapper<Pinned<F>>>,
}

impl<F: Future> PollElem for Entry<F> {
    type Fut = F;

    type Out = ();

    type Error = OrderWrapper<F::Output>;

    /// The output of a future leaves with it as an error, with the position that the
    /// future was tagged with.
    open spec fn gives(
        waiting: Waiting<F>,
        waker: Waker,
        result: Poll<Result<(), OrderWrapper<F::Output>>>,
    ) -> bool {
        match result {
            Poll::Pending => task::given(waiting.pointer, waker, Poll::<F::Output>::Pending),
            Poll::Ready(Ok(())) => false,
            Poll::Ready(Err(output)) => {
                &&& waiting.tag == Some(output.index)
                &&& task::given(waiting.pointer, waker, Poll::Ready(output.data))
                &&& task::let_go(waiting, waker)
            },
        }
    }

    closed spec fn progress(&self) -> Progress<F, ()> {
        match self.future {
            Some(future) => Progress::Pending(
                Waiting { tag: Some(future.index), ..future.data@ },
            ),
            None => Progress::Gone,
        }
    }

    fn is_pending(&self) -> (pending: bool) {
        self.future.is_some()
    }

    fn poll_elem(&mut self, cx: &mut Context<'_>) -> (signal: Poll<
        Result<(), OrderWrapper<F::Output>>,
    >) {
        match &mut self.future {
            None => Poll::Pending,
            Some(future) => {
                let index: usize = future.index;
                match future.data.poll(cx) {
                    Poll::Pending => Poll::Pending,
                    Poll::Ready(data) => {
                        let ghost waiting = old(self).progress()->Pending_0;
                        let ghost past = future.data;
                        if let Some(future) = self.future.take() {
                            task::discard(future.data);
                        }
                        assert(task::dropped(past));
                        Poll::Ready(Err(OrderWrapper { data, index }))
                    },
                }
            },
        }
    }
}

/// The progress of futures whose outputs leave with them, without their positions.
spec fn stripped<F, T>(state: Seq<Progress<F, ()>>) -> Seq<Progress<F, T>> {
    Seq::new(
        state.len(),
        |i: int|
            match state[i] {
                Progress::Pending(waiting) => Progress::Pending(Waiting { tag: None, ..waiting }),
                _ => Progress::Gone,
            },
    )
}

/// Polls that leave each future uncompleted, as polls of futures without their
/// positions.
spec fn stripped_polls<F, T>(trace: Seq<PollEvent<F, (), OrderWrapper<T>>>) -> Seq<
    PollEvent<F, T, ()>,
> {
    Seq::new(
        trace.len(),
        |k: int|
            PollEvent {
                index: trace[k].index,
                waker: trace[k].waker,
                left: trace[k].left,
                moved: trace[k].moved,
                result: Poll::Pending,
            },
    )
}

/// Leaving out the positions makes no difference to what polls do.
proof fn lemma_stripped_polls<F, T>(
    start: Seq<Progress<F, ()>>,
    trace: Seq<PollEvent<F, (), OrderWrapper<T>>>,
)
    requires
        progress::valid(start, trace),
        progress::all_waited(trace),
    ensures
        progress::valid(stripped::<F, T>(start), stripped_polls(trace)),
        progress::all_waited(stripped_polls(trace)),
        progress::run(stripped::<F, T>(start), stripped_polls(trace)) == stripped::<F, T>(
            progress::run(start, trace),
        ),
    decreases trace.len(),
{
    let state = stripped::<F, T>(start);
    let polls = stripped_polls(trace);
    progress::lemma_run_len(start, trace);
    if trace.len() > 0 {
        let earlier = trace.drop_last();
        lemma_stripped_polls::<F, T>(start, earlier);
        progress::lemma_run_len(start, earlier);
        assert(polls.drop_last() =~= stripped_polls(earlier));
        progress::lemma_all_waited(state, stripped_polls(earlier));
    }
}

/// Whether polling the futures of a set, whose slots stand behind `lock`, with the polls
/// of `trace`, until one of them completes and leaves the set, takes them from `before` to
/// `after` and gives `result`. The waker of the task is `waker`. It gives
/// `Poll::Ready(None)` if no future is in the set. The futures that were never polled are
/// polled, in order, and then those that were woken, at most as many as are in the set,
/// and none after two of them woke themselves, which is looked for after each poll, when
/// the slots are in the state that `thens` holds. Each future is given the waker of its
/// slot.
pub open spec fn stepped<F, T>(
    lock: SlotLock,
    waker: Waker,
    before: Seq<Progress<F, T>>,
    after: Seq<Progress<F, T>>,
    result: Poll<Option<OrderWrapper<T>>>,
    gives: Gives<F, T, ()>,
    trace: Seq<PollEvent<F, T, ()>>,
    thens: Seq<SlotState<Waker>>,
) -> bool {
    &&& progress::valid(before, trace)
    &&& progress::told(before, trace, gives)
    &&& progress::all_in_turn(lock, before, trace)
    &&& trace.len() <= progress::pending_count(before)
    &&& slot_wakers::looks_after(lock, trace, thens)
    &&& match result {
        Poll::Ready(None) => {
            &&& forall|i: int| 0 <= i < before.len() ==> #[trigger] before[i] !is Pending
            &&& trace.len() == 0
            &&& after == before
        },
        Poll::Pending => {
            &&& exists|i: int| 0 <= i < before.len() && #[trigger] before[i] is Pending
            &&& progress::all_waited(trace)
            &&& after == progress::run(before, trace)
            &&& progress::taken_up(before, after)
            &&& slot_wakers::pauses(
                lock,
                waker,
                after,
                progress::pending_count(before),
                trace,
                thens,
            )
        },
        Poll::Ready(Some(output)) => {
            &&& trace.len() > 0
            &&& progress::all_waited(trace.drop_last())
            &&& trace.last().index == output.index
            &&& trace.last().result == Poll::Ready(Ok::<T, ()>(output.data))
            &&& after == progress::run(before, trace.drop_last()).update(
                output.index as int,
                Progress::Gone,
            )
        },
    }
}

/// Whether polling the futures of a set, whose slots stand behind `lock`, until one of
/// them completes and leaves the set can have taken them from `before` to `after` and given
/// `result`. The waker of the task is `waker`.
pub open spec fn may_step<F, T>(
    lock: SlotLock,
    waker: Waker,
    before: Seq<Progress<F, T>>,
    after: Seq<Progress<F, T>>,
    result: Poll<Option<OrderWrapper<T>>>,
    gives: Gives<F, T, ()>,
) -> bool {
    exists|trace: Seq<PollEvent<F, T, ()>>, thens: Seq<SlotState<Waker>>| #[trigger]
        stepped(lock, waker, before, after, result, gives, trace, thens)
}

/// As [`may_step`], of a call that does what `notes` are of and nothing else: it polls these
/// futures, and does to their slots what is to be done. The futures from position `from` on
/// were never polled, and now those from position `to` on.
pub open spec fn booked_step<F, T>(
    lock: SlotLock,
    waker: Waker,
    before: Seq<Progress<F, T>>,
    after: Seq<Progress<F, T>>,
    from: int,
    to: int,
    result: Poll<Option<OrderWrapper<T>>>,
    gives: Gives<F, T, ()>,
    notes: Seq<Note>,
) -> bool {
    exists|trace: Seq<PollEvent<F, T, ()>>, thens: Seq<SlotState<Waker>>|
        {
            &&& #[trigger] stepped(lock, waker, before, after, result, gives, trace, thens)
            &&& ledger::kept(
                lock,
                waker,
                notes,
                ledger::turns_of(trace),
                progress::pending_of(after),
                slot_wakers::leaves_idle(
                    progress::pending_count(before),
                    result,
                    trace,
                    thens,
                ),
                from,
                to,
            )
            &&& notes.len() > 0 ==> !(notes.last() is Polled)
        }
}

/// Leaving out the positions makes no difference to whose turn it is, nor to what the
/// futures have given.
proof fn lemma_stripped_turns<F: Future>(
    lock: SlotLock,
    start: Seq<Progress<F, ()>>,
    from: int,
    events: Seq<PollEvent<F, (), OrderWrapper<F::Output>>>,
    thens: Seq<SlotState<Waker>>,
    trace: Seq<PollEvent<F, F::Output, ()>>,
)
    requires
        slot_wakers::follows(lock, start, from, events, thens),
        progress::told(start, events, maybe_done::giving::<Entry<F>>()),
        progress::all_in_turn(lock, start, events),
        trace.len() == events.len(),
        events.len() > 0 ==> progress::all_waited(events.drop_last()),
        forall|k: int|
            0 <= k < events.len() ==> (#[trigger] trace[k]).index == events[k].index
                && trace[k].waker == events[k].waker && trace[k].left == events[k].left
                && trace[k].moved == events[k].moved,
        forall|k: int|
            0 <= k < events.len() ==> match (#[trigger] trace[k]).result {
                Poll::Pending => events[k].result is Pending,
                Poll::Ready(Ok(output)) => events[k].result matches Poll::Ready(Err(wrapped))
                    && wrapped.data == output,
                Poll::Ready(Err(_)) => false,
            },
    ensures
        progress::told(stripped::<F, F::Output>(start), trace, task::giving::<F>()),
        progress::all_in_turn(lock, stripped::<F, F::Output>(start), trace),
        slot_wakers::looks_after(lock, trace, thens),
        slot_wakers::yields(trace, thens, trace.len() as int) == slot_wakers::yields(
            events,
            thens,
            events.len() as int,
        ),
{
    let before = stripped::<F, F::Output>(start);
    slot_wakers::lemma_looks_after(lock, start, from, events, thens, trace);
    assert forall|k: int| 0 <= k < events.len() implies progress::same_fresh(
        progress::run(start, events.take(k)),
        progress::run(before, trace.take(k)),
    ) && #[trigger] progress::tells(before, trace, task::giving::<F>(), k) by {
        let first = events.take(k);
        progress::lemma_valid_take(start, events, k);
        assert(progress::tells(start, events, maybe_done::giving::<Entry<F>>(), k));
        assert forall|j: int| 0 <= j < first.len() implies (#[trigger] first[j]).result
            is Pending by {
            assert(first[j] == events.drop_last()[j]);
        }
        lemma_stripped_polls::<F, F::Output>(start, first);
        progress::lemma_run_len(start, first);
        assert forall|j: int| 0 <= j < k implies #[trigger] trace.take(k)[j] == stripped_polls(
            first,
        )[j] by {
            assert(trace.take(k)[j] == trace[j]);
            assert(first[j].result is Pending);
        }
        assert(trace.take(k) =~= stripped_polls(first));
    }
    assert forall|k: int| 0 <= k < events.len() implies progress::same_fresh(
        progress::run(start, #[trigger] events.take(k)),
        progress::run(before, trace.take(k)),
    ) by {
        assert(progress::tells(before, trace, task::giving::<F>(), k));
    }
    progress::lemma_same_turns(lock, start, events, before, trace);
}

/// What polling the entries of a set has given.
spec fn completed<T>(signal: Poll<Result<(), OrderWrapper<T>>>) -> Poll<Option<OrderWrapper<T>>> {
    match signal {
        Poll::Pending => Poll::Pending,
        Poll::Ready(Ok(())) => Poll::Ready(None),
        Poll::Ready(Err(output)) => Poll::Ready(Some(output)),
    }
}

/// What polling the entries of a set until one of them hands out an output does to
/// its futures.
proof fn lemma_stepped<F: Future>(
    lock: SlotLock,
    waker: Waker,
    start: Seq<Progress<F, ()>>,
    end: Seq<Progress<F, ()>>,
    signal: Poll<Result<(), OrderWrapper<F::Output>>>,
    from: int,
    events: Seq<PollEvent<F, (), OrderWrapper<F::Output>>>,
    thens: Seq<SlotState<Waker>>,
) -> (trace: Seq<PollEvent<F, F::Output, ()>>)
    requires
        slot_wakers::follows(lock, start, from, events, thens),
        progress::advances(
            start,
            end,
            signal,
            progress::pending_count(start),
            Manner::Slots(lock, waker),
            events,
        ),
        signal is Pending ==> progress::taken_up(start, end) && slot_wakers::pauses(
            lock,
            waker,
            end,
            progress::pending_count(start),
            events,
            thens,
        ),
        progress::told(start, events, maybe_done::giving::<Entry<F>>()),
        forall|i: int|
            0 <= i < start.len() ==> (#[trigger] start[i] matches Progress::Pending(waiting)
                ==> waiting.tag == Some(i as usize)),
        start.len() <= usize::MAX,
    ensures
        end.len() == start.len(),
        stepped(
            lock,
            waker,
            stripped::<F, F::Output>(start),
            stripped::<F, F::Output>(end),
            completed(signal),
            task::giving::<F>(),
            trace,
            thens,
        ),
        forall|i: int|
            0 <= i < start.len() ==> (#[trigger] end[i] matches Progress::Pending(waiting)
                ==> waiting.tag == Some(i as usize)),
        signal matches Poll::Ready(Err(output)) ==> output.index < start.len()
            && progress::pending_count(start) == progress::pending_count(end) + 1
            && events.last().index == output.index,
        ledger::turns_of(trace) == ledger::turns_of(events),
        slot_wakers::leaves_idle(progress::pending_count(start), signal, events, thens)
            == slot_wakers::leaves_idle(
            progress::pending_count(stripped::<F, F::Output>(start)),
            completed(signal),
            trace,
            thens,
        ),
        progress::pending_of(stripped::<F, F::Output>(end)) == progress::pending_of(end),
{
    progress::lemma_run_len(start, events);
    progress::lemma_pending_count_zero(end);
    assert forall|k: int| 0 <= k < events.len() implies !((#[trigger] events[k]).result
        matches Poll::Ready(Ok(_))) by {
        assert(progress::tells(start, events, maybe_done::giving::<Entry<F>>(), k));
    }
    assert forall|i: int| 0 <= i < start.len() implies (#[trigger] end[i] matches Progress::Pending(
        waiting,
    ) ==> waiting.tag == Some(i as usize)) by {
        if end[i] is Pending {
            progress::lemma_pending_stays(start, events, i);
        }
    }
    let before = stripped::<F, F::Output>(start);
    let after = stripped::<F, F::Output>(end);
    progress::lemma_pending_count_same(start, before);
    assert(progress::pending_of(after) =~= progress::pending_of(end));
    match signal {
        Poll::Ready(Err(output)) => {
            let earlier = events.drop_last();
            lemma_stripped_polls::<F, F::Output>(start, earlier);
            progress::lemma_all_waited(start, earlier);
            let polls = stripped_polls(earlier);
            progress::lemma_all_waited(before, polls);
            let middle = progress::run(start, earlier);
            let i = events.last().index;
            let n = events.len() - 1;
            assert(progress::tells(start, events, maybe_done::giving::<Entry<F>>(), n));
            assert(events.take(n) =~= earlier);
            progress::lemma_pending_stays(start, earlier, i);
            let last = PollEvent {
                index: output.index as int,
                waker: events.last().waker,
                left: events.last().left,
                moved: events.last().moved,
                result: Poll::Ready(Ok::<F::Output, ()>(output.data)),
            };
            let trace = polls.push(last);
            assert(trace.drop_last() =~= polls);
            assert(after =~= progress::run(before, polls).update(i, Progress::Gone));
            progress::lemma_pending_count_update(middle, i, Progress::Gone);
            lemma_stripped_turns(lock, start, from, events, thens, trace);
            assert forall|k: int| 0 <= k < events.len() implies (#[trigger] trace[k]).result
                is Ready == events[k].result is Ready && trace[k].index == events[k].index by {
                if k < n {
                    assert(events[k] == earlier[k]);
                }
            }
            assert(ledger::turns_of(trace) =~= ledger::turns_of(events));
            trace
        },
        _ => {
            lemma_stripped_polls::<F, F::Output>(start, events);
            progress::lemma_all_waited(start, events);
            if signal is Pending {
                assert forall|n: int| 0 <= n && #[trigger] progress::polled_up_to(
                    before,
                    n,
                ) implies progress::polled_up_to(after, n + 2) by {
                    assert forall|i: int| 0 <= i < n && i < start.len() implies !progress::fresh(
                        #[trigger] start[i],
                    ) by {
                        assert(!progress::fresh(before[i]));
                    }
                    assert(progress::polled_up_to(start, n));
                }
                let i = choose|i: int| 0 <= i < end.len() && #[trigger] end[i] is Pending;
                assert(before[i] is Pending);
                let trace = stripped_polls(events);
                lemma_stripped_turns(lock, start, from, events, thens, trace);
                if progress::polled_up_to(end, end.len() as int) {
                    assert forall|j: int| 0 <= j < after.len() implies !progress::fresh(
                        #[trigger] after[j],
                    ) by {
                        assert(!progress::fresh(end[j]));
                    }
                }
                assert forall|k: int| 0 <= k < events.len() implies (#[trigger] events[k]).result
                    is Pending by {
                    assert(!progress::failed(events[k].result));
                }
                assert(ledger::turns_of(trace) =~= ledger::turns_of(events));
                trace
            } else {
                assert forall|i: int| 0 <= i < before.len() implies #[trigger] before[i]
                    !is Pending by {
                    assert(end[i] !is Pending);
                }
                if events.len() > 0 {
                    lemma_first_polled(start, events);
                    assert(before[events[0].index] is Pending);
                }
                let trace: Seq<PollEvent<F, F::Output, ()>> = Seq::empty();
                lemma_stripped_turns(lock, start, from, events, thens, trace);
                assert(ledger::turns_of(trace) =~= ledger::turns_of(events));
                trace
            }
        },
    }
}

/// A future that is polled first has not completed before.
proof fn lemma_first_polled<F, T, E>(start: Seq<Progress<F, T>>, trace: Seq<PollEvent<F, T, E>>)
    requires
        progress::valid(start, trace),
        trace.len() > 0,
    ensures
        0 <= trace[0].index < start.len(),
        start[trace[0].index] is Pending,
    decreases trace.len(),
{
    if trace.len() > 1 {
        lemma_first_polled(start, trace.drop_last());
    }
}

/// A set of futures, each with its position, of which only those that were woken
/// are polled.
#[verifier::reject_recursive_types(F)]
pub struct FuturesUnordered<F: Future> {
    wakers: SlotWakers,
    entries: Vec<Entry<F>>,
}

impl<F: Future> FuturesUnordered<F> {
    /// For each position, the future if it is still in the set.
    pub closed spec fn state(&self) -> Seq<Progress<F, F::Output>> {
        stripped(slot_wakers::progress_of(self.entries@))
    }

    /// The slots of the futures.
    pub closed spec fn lock(&self) -> SlotLock {
        self.wakers.lock()
    }

    /// What was done to the slots, other than by their wakers, and to the futures, one
    /// after the other.
    pub closed spec fn log(&self) -> Seq<Note> {
        self.wakers.log()
    }

    /// The index of the first future that has never been polled.
    pub closed spec fn unpolled(&self) -> nat {
        self.wakers.unpolled()
    }

    pub closed spec fn wf(&self) -> bool {
        let entries = slot_wakers::progress_of(self.entries@);
        &&& self.wakers.wf()
        &&& self.wakers.len() == entries.len()
        &&& entries.len() < usize::MAX
        &&& self.wakers.remaining() == progress::pending_count(entries)
        &&& progress::all_live(entries)
        &&& forall|i: int|
            0 <= i < entries.len() ==> (#[trigger] entries[i] matches Progress::Pending(waiting)
                ==> waiting.tag == Some(i as usize))
        &&& forall|i: int|
            0 <= i < entries.len() ==> (progress::fresh(#[trigger] entries[i])
                <==> self.wakers.unpolled() <= i)
    }

    /// The futures that were never polled are the last ones.
    pub proof fn lemma_unpolled(&self)
        requires
            self.wf(),
        ensures
            forall|i: int|
                0 <= i < self.state().len() ==> (progress::fresh(#[trigger] self.state()[i])
                    <==> self.unpolled() <= i),
    {
        let entries = slot_wakers::progress_of(self.entries@);
        assert forall|i: int| 0 <= i < self.state().len() implies (progress::fresh(
            #[trigger] self.state()[i],
        ) <==> self.unpolled() <= i) by {
            assert(progress::fresh(entries[i]) <==> self.unpolled() <= i);
        }
    }

    /// The set of the given futures, each with its position among them.
    pub fn new(futures: Vec<F>) -> (set: Self)
        requires
            futures.len() < usize::MAX,
        ensures
            set.wf(),
            progress::unstarted(set.state(), futures@),
            set.log() == Seq::<Note>::empty(),
            slot_wakers::begins(set.lock(), SlotState::initial(futures.len() as int)),
    {
        let len: usize = futures.len();
        let mut entries: Vec<Entry<F>> = Vec::new();
        for future in it: futures
            invariant
                entries.len() == it.index(),
                it.seq() == futures@,
                futures.len() == len,
                forall|i: int|
                    0 <= i < entries.len() ==> ((#[trigger] entries@[i]).future matches Some(entry)
                        && entry.index == i && entry.data@ == Waiting::new(
                        futures@[i],
                        entry.data@.pointer,
                    ) && task::pinned(futures@[i], entry.data@.pointer)),
        {
            let index: usize = entries.len();
            entries.push(
                Entry { future: Some(OrderWrapper { data: Pinned::new(future), index }) },
            );
        }
        let set: FuturesUnordered<F> = FuturesUnordered { wakers: SlotWakers::new(len), entries };
        proof {
            let state = slot_wakers::progress_of(entries@);
            assert forall|i: int| 0 <= i < state.len() implies #[trigger] state[i] is Pending
                && progress::live(state[i]) && progress::fresh(state[i])
                && state[i]->Pending_0.tag == Some(i as usize) by {
                assert(entries@[i].future is Some);
            }
            progress::lemma_pending_count_unstarted(state);
            assert forall|i: int| 0 <= i < set.state().len() implies progress::begins_with(
                #[trigger] set.state()[i],
                futures@[i],
            ) by {
                assert(entries@[i].future is Some);
            }
        }
        set
    }

    /// The number of positions.
    pub fn len(&self) -> (len: usize)
        ensures
            len == self.state().len(),
    {
        self.entries.len()
    }

    /// Polls the futures that were never polled or that were woken, until one of
    /// them completes, which then leaves the set. Returns `Poll::Ready(None)` if no
    /// future is in the set.
    pub fn poll_next(&mut self, cx: &mut Context<'_>) -> (result: Poll<
        Option<OrderWrapper<F::Output>>,
    >)
        requires
            old(self).wf(),
        ensures
            final(self).wf(),
            final(self).lock() == old(self).lock(),
            *final(cx) == *old(cx),
            may_step(
                old(self).lock(),
                task::context_waker(*old(cx)),
                old(self).state(),
                final(self).state(),
                result,
                task::giving::<F>(),
            ),
            result matches Poll::Ready(Some(output)) ==> slot_wakers::marked_complete(
                old(self).lock(),
                output.index as int,
            ),
            final(self).log() == old(self).log() + ledger::added(
                old(self).log(),
                final(self).log(),
            ),
            booked_step(
                old(self).lock(),
                task::context_waker(*old(cx)),
                old(self).state(),
                final(self).state(),
                old(self).unpolled() as int,
                final(self).unpolled() as int,
                result,
                task::giving::<F>(),
                ledger::added(old(self).log(), final(self).log()),
            ),
    {
        let ghost log = self.log();
        let ghost start = slot_wakers::progress_of(self.entries@);
        let ghost from = self.wakers.unpolled();
        let ghost limit = self.wakers.remaining();
        let signal: Poll<Result<(), OrderWrapper<F::Output>>> = self.wakers.poll(
            &mut self.entries,
            cx,
        );
        let ghost end = slot_wakers::progress_of(self.entries@);
        let ghost seen = signal;
        let ghost lock = self.wakers.lock();
        let ghost waker = task::context_waker(*cx);
        let ghost notes = ledger::added(log, self.log());
        let ghost to = self.wakers.unpolled() as int;
        let ghost (events, thens) = choose|
            events: Seq<PollEvent<F, (), OrderWrapper<F::Output>>>,
            thens: Seq<SlotState<Waker>>,
        |
            {
                &&& #[trigger] slot_wakers::runs(
                    lock,
                    waker,
                    start,
                    end,
                    from as int,
                    limit,
                    seen,
                    maybe_done::giving::<Entry<F>>(),
                    events,
                    thens,
                )
                &&& ledger::kept(
                    lock,
                    waker,
                    notes,
                    ledger::turns_of(events),
                    progress::pending_of(end),
                    slot_wakers::leaves_idle(limit, seen, events, thens),
                    from as int,
                    to,
                )
                &&& match seen {
                    Poll::Ready(Err(_)) => notes.len() > 0 && notes.last() == (Note::Polled {
                        index: events.last().index,
                        ready: true,
                    }),
                    _ => notes.len() > 0 ==> !(notes.last() is Polled),
                }
            };
        let ghost mut trace: Seq<PollEvent<F, F::Output, ()>> = Seq::empty();
        proof {
            slot_wakers::lemma_runs_in_turn(
                lock,
                waker,
                start,
                end,
                from as int,
                limit,
                seen,
                maybe_done::giving::<Entry<F>>(),
                events,
                thens,
            );
            progress::lemma_all_live(start, events);
            progress::lemma_went_on(
                start,
                end,
                seen,
                limit,
                Manner::Slots(lock, waker),
                from,
                self.wakers.unpolled(),
            );
            trace = lemma_stepped(lock, waker, start, end, seen, from as int, events, thens);
        }
        let result: Poll<Option<OrderWrapper<F::Output>>> = match signal {
            Poll::Pending => Poll::Pending,
            Poll::Ready(Ok(())) => Poll::Ready(None),
            Poll::Ready(Err(output)) => {
                let ghost earlier = self.log();
                self.wakers.complete(output.index);
                proof {
                    let i = output.index as int;
                    let state = choose|state: SlotState<Waker>|
                        {
                            &&& #[trigger] slot_wakers::exchanged(
                                lock,
                                state,
                                state.completed(i),
                            )
                            &&& 0 <= i < state.len
                            &&& self.log() == earlier.push(
                                Note::Did {
                                    before: state,
                                    act: Act::Complete(i),
                                    after: state.completed(i),
                                },
                            )
                        };
                    assert(ledger::added(log, self.log()) =~= notes.push(self.log().last()));
                    assert(self.log() =~= log + ledger::added(log, self.log()));
                    ledger::lemma_mark_kept(
                        lock,
                        waker,
                        notes,
                        ledger::turns_of(events),
                        progress::pending_of(end),
                        from as int,
                        to,
                        i,
                        state,
                    );
                }
                Poll::Ready(Some(output))
            },
        };
        result
    }

    /// Drops the waker of the task that polls the futures, so that wakers that
    /// outlive the set don't wake it.
    pub fn close(&mut self)
        requires
            old(self).wf(),
        ensures
            final(self).wf(),
            final(self).lock() == old(self).lock(),
            final(self).state() == old(self).state(),
            slot_wakers::closed_off(old(self).lock()),
            slot_wakers::closes(old(self).lock(), old(self).log(), final(self).log()),
    {
        self.wakers.close();
    }
}

} // verus!
