//! How far the futures of a combinator have come, and what polling them does.
use crate::slot_wakers;
use crate::slot_wakers::SlotLock;
use crate::task;
use std::pin::Pin;
use std::task::{Poll, Waker};
use vstd::prelude::*;

verus! {

/// A future whose output was not recorded, where it was pinned, the position that it was
/// tagged with, if it was, how often it was polled, the waker that it was given the last
/// time, and whether it has returned its output.
#[verifier::reject_recursive_types(F)]
pub ghost struct Waiting<F> {
    pub future: F,
    pub pointer: Pin<Box<F>>,
    pub tag: Option<usize>,
    pub polls: nat,
    pub waker: Option<Waker>,
    pub finished: bool,
}

impl<F> Waiting<F> {
    /// A future that was pinned and never polled.
    pub open spec fn new(future: F, pointer: Pin<Box<F>>) -> Self {
        Waiting { future, pointer, tag: None, polls: 0, waker: None, finished: false }
    }

    /// The future after it was polled once more, with `waker`, and did not complete. The
    /// poll has left `moved` of what points to it.
    pub open spec fn again(self, waker: Waker, moved: Pin<Box<F>>) -> Self {
        Waiting { pointer: moved, polls: self.polls + 1, waker: Some(waker), ..self }
    }

    /// The future after it was polled with `waker` and has returned `result`.
    pub open spec fn after<T>(self, waker: Waker, moved: Pin<Box<F>>, result: Poll<T>) -> Self {
        Waiting { finished: result is Ready, ..self.again(waker, moved) }
    }
}

/// Whether polling the future that waits, with this waker, has given this result.
pub type Gives<F, T, E> = spec_fn(Waiting<F>, Waker, Poll<Result<T, E>>) -> bool;

/// How far one future has come.
#[verifier::reject_recursive_types(F)]
pub ghost enum Progress<F, T> {
    /// The future has not completed.
    Pending(Waiting<F>),
    /// The future has completed with this output.
    Done(T),
    /// The output of the future was handed out.
    Gone,
}

/// One poll of one future: the position of the future, the waker that it was given, the
/// waker that it has left in the context, what the poll has left of what points to the
/// future, and what the future returned.
#[verifier::reject_recursive_types(F)]
#[verifier::reject_recursive_types(T)]
#[verifier::reject_recursive_types(E)]
pub ghost struct PollEvent<F, T, E> {
    pub index: int,
    pub waker: Waker,
    pub left: Waker,
    pub moved: Pin<Box<F>>,
    pub result: Poll<Result<T, E>>,
}

/// What a future that cannot fail returned, as what one that can would.
pub open spec fn succeeding<T>(result: Poll<T>) -> Poll<Result<T, ()>> {
    match result {
        Poll::Pending => Poll::Pending,
        Poll::Ready(output) => Poll::Ready(Ok(output)),
    }
}

/// What a future that has not completed has come to once it was polled with `waker`
/// and has returned `result`.
pub open spec fn settle<F, T, E>(
    progress: Progress<F, T>,
    waker: Waker,
    moved: Pin<Box<F>>,
    result: Poll<Result<T, E>>,
) -> Progress<F, T> {
    match result {
        Poll::Pending => Progress::Pending(progress->Pending_0.again(waker, moved)),
        Poll::Ready(Ok(output)) => Progress::Done(output),
        Poll::Ready(Err(_)) => Progress::Gone,
    }
}

/// What is known of a future, of which `progress` was known, once it is known
/// that it has returned `result`.
pub open spec fn recorded<F, T, E>(
    progress: Progress<F, T>,
    result: Poll<Result<T, E>>,
) -> Progress<F, T> {
    match result {
        Poll::Pending => progress,
        Poll::Ready(Ok(output)) => Progress::Done(output),
        Poll::Ready(Err(_)) => Progress::Gone,
    }
}

/// `result` without its output.
pub open spec fn signal<T, E>(result: Poll<Result<T, E>>) -> Poll<Result<(), E>> {
    match result {
        Poll::Pending => Poll::Pending,
        Poll::Ready(Ok(_)) => Poll::Ready(Ok(())),
        Poll::Ready(Err(error)) => Poll::Ready(Err(error)),
    }
}

/// What a future has returned that has come to `after` when polling it gave
/// `signal`.
pub open spec fn returned<F, T, E>(after: Progress<F, T>, signal: Poll<Result<(), E>>) -> Poll<
    Result<T, E>,
> {
    match signal {
        Poll::Pending => Poll::Pending,
        Poll::Ready(Ok(())) => Poll::Ready(Ok(after->Done_0)),
        Poll::Ready(Err(error)) => Poll::Ready(Err(error)),
    }
}

/// Whether polling a future once, with `waker`, can give `signal` and take it from
/// `before` to `after`.
pub open spec fn polled<F, T, E>(
    before: Progress<F, T>,
    after: Progress<F, T>,
    waker: Waker,
    signal: Poll<Result<(), E>>,
) -> bool {
    after == settle(before, waker, after->Pending_0.pointer, returned(after, signal))
}

/// Whether `result` is an error.
pub open spec fn failed<T, E>(result: Poll<Result<T, E>>) -> bool {
    result matches Poll::Ready(Err(_))
}

/// Whether no poll of `trace` returned an error.
pub open spec fn no_failure<F, T, E>(trace: Seq<PollEvent<F, T, E>>) -> bool {
    forall|k: int| 0 <= k < trace.len() ==> !failed(#[trigger] trace[k].result)
}

/// Whether every poll of `trace` left its future uncompleted.
pub open spec fn all_waited<F, T, E>(trace: Seq<PollEvent<F, T, E>>) -> bool {
    forall|k: int| 0 <= k < trace.len() ==> (#[trigger] trace[k]).result is Pending
}

/// The progress of the futures after the polls of `trace`.
pub open spec fn run<F, T, E>(
    start: Seq<Progress<F, T>>,
    trace: Seq<PollEvent<F, T, E>>,
) -> Seq<Progress<F, T>>
    decreases trace.len(),
{
    if trace.len() == 0 {
        start
    } else {
        let before = run(start, trace.drop_last());
        let event = trace.last();
        before.update(
            event.index,
            settle(before[event.index], event.waker, event.moved, event.result),
        )
    }
}

/// Whether `trace` is a sequence of polls that a combinator may make: each of
/// them polls a future that has not completed, and none follows an error.
pub open spec fn valid<F, T, E>(start: Seq<Progress<F, T>>, trace: Seq<PollEvent<F, T, E>>) -> bool
    decreases trace.len(),
{
    trace.len() == 0 || {
        let earlier = trace.drop_last();
        let event = trace.last();
        &&& valid(start, earlier)
        &&& no_failure(earlier)
        &&& 0 <= event.index < start.len()
        &&& run(start, earlier)[event.index] is Pending
    }
}

/// Whether the future may be polled: it has not returned its output.
pub open spec fn live<F, T>(progress: Progress<F, T>) -> bool {
    progress matches Progress::Pending(waiting) ==> !waiting.finished
}

/// Whether every future that has not completed may be polled.
pub open spec fn all_live<F, T>(state: Seq<Progress<F, T>>) -> bool {
    forall|i: int| 0 <= i < state.len() ==> live(#[trigger] state[i])
}

/// Whether every future has completed.
pub open spec fn all_done<F, T>(state: Seq<Progress<F, T>>) -> bool {
    forall|i: int| 0 <= i < state.len() ==> #[trigger] state[i] is Done
}

/// Whether no output was handed out.
pub open spec fn none_gone<F, T>(state: Seq<Progress<F, T>>) -> bool {
    forall|i: int| 0 <= i < state.len() ==> #[trigger] state[i] !is Gone
}

/// The outputs of futures that have all completed, in the order of the futures.
pub open spec fn outputs<F, T>(state: Seq<Progress<F, T>>) -> Seq<T> {
    Seq::new(state.len(), |i: int| state[i]->Done_0)
}

/// Whether these futures have come this far: they were pinned, and none was polled yet.
pub open spec fn unstarted<F, T>(state: Seq<Progress<F, T>>, futures: Seq<F>) -> bool {
    &&& state.len() == futures.len()
    &&& forall|i: int|
        0 <= i < state.len() ==> begins_with(#[trigger] state[i], futures[i])
}

/// Whether `future` has come this far: it was pinned, and not polled yet.
pub open spec fn begins_with<F, T>(progress: Progress<F, T>, future: F) -> bool {
    progress matches Progress::Pending(waiting) && {
        &&& waiting == Waiting::new(future, waiting.pointer)
        &&& task::pinned(future, waiting.pointer)
    }
}

/// Whether no future was polled yet.
pub open spec fn none_started<F, T>(state: Seq<Progress<F, T>>) -> bool {
    forall|i: int|
        0 <= i < state.len() ==> begins_with(
            #[trigger] state[i],
            state[i]->Pending_0.future,
        )
}

/// What waiting for all futures amounts to when none of them failed.
pub open spec fn completion<F, T, E>(state: Seq<Progress<F, T>>) -> Poll<Result<Seq<T>, E>> {
    if all_done(state) {
        Poll::Ready(Ok(outputs(state)))
    } else {
        Poll::Pending
    }
}

/// What waiting for all futures amounts to after the polls of `trace`: the error
/// that ended it, or all outputs, or that it is not over.
pub open spec fn outcome<F, T, E>(
    start: Seq<Progress<F, T>>,
    trace: Seq<PollEvent<F, T, E>>,
) -> Poll<Result<Seq<T>, E>> {
    if trace.len() == 0 {
        completion(start)
    } else {
        match trace.last().result {
            Poll::Ready(Err(error)) => Poll::Ready(Err(error)),
            _ => completion(run(start, trace)),
        }
    }
}

/// What is left of the futures after the polls of `trace`: nothing once it is
/// over.
pub open spec fn remains<F, T, E>(
    start: Seq<Progress<F, T>>,
    trace: Seq<PollEvent<F, T, E>>,
) -> Seq<Progress<F, T>> {
    if outcome(start, trace) is Ready {
        Seq::empty()
    } else {
        run(start, trace)
    }
}

/// Whether what poll `k` of `trace` has recorded is what polling its future has given.
pub open spec fn tells<F, T, E>(
    start: Seq<Progress<F, T>>,
    trace: Seq<PollEvent<F, T, E>>,
    gives: Gives<F, T, E>,
    k: int,
) -> bool {
    gives(
        run(start, trace.take(k))[trace[k].index]->Pending_0,
        trace[k].waker,
        trace[k].result,
    )
}

/// Whether what each poll of `trace` has recorded is what polling its future has given.
pub open spec fn told<F, T, E>(
    start: Seq<Progress<F, T>>,
    trace: Seq<PollEvent<F, T, E>>,
    gives: Gives<F, T, E>,
) -> bool {
    forall|k: int| 0 <= k < trace.len() ==> #[trigger] tells(start, trace, gives, k)
}

/// Whether `output` is what a poll of `trace` of the future at position `i` has given.
pub open spec fn completed_with<F, T, E>(
    start: Seq<Progress<F, T>>,
    trace: Seq<PollEvent<F, T, E>>,
    gives: Gives<F, T, E>,
    i: int,
    output: T,
) -> bool {
    exists|k: int|
        {
            &&& 0 <= k < trace.len()
            &&& (#[trigger] trace[k]).index == i
            &&& trace[k].result == Poll::Ready(Ok::<T, E>(output))
            &&& tells(start, trace, gives, k)
        }
}

/// Whether `trace` polls each future that had not completed once, in the order of
/// the futures, unless one of them fails, which ends it.
pub open spec fn sweeps<F, T, E>(start: Seq<Progress<F, T>>, trace: Seq<PollEvent<F, T, E>>) -> bool {
    &&& forall|j: int, k: int|
        0 <= j < k < trace.len() ==> (#[trigger] trace[j]).index < (#[trigger] trace[k]).index
    &&& forall|i: int|
        0 <= i < start.len() && #[trigger] start[i] is Pending && (no_failure(trace) || i
            <= trace.last().index) ==> exists|k: int|
            0 <= k < trace.len() && (#[trigger] trace[k]).index == i
}

/// How a call polls the futures.
pub ghost enum Manner {
    /// Each future that has not completed is polled once, in order, with the context of
    /// the task: the first of them is given the first of these wakers, each other one the
    /// waker that the one before it has left, and the last one leaves the second.
    Sweep(Waker, Waker),
    /// The futures that were never polled are polled, in order, and then those that were
    /// woken, each with the waker of its slot. These are the slots, and the waker of the
    /// task.
    Slots(SlotLock, Waker),
    /// Nothing is said.
    Any,
}

/// Whether each poll of `trace` is given the waker that the one before it has left, the
/// first one `waker`, and the last one leaves `left`.
pub open spec fn passed_on<F, T, E>(trace: Seq<PollEvent<F, T, E>>, waker: Waker, left: Waker) -> bool {
    &&& trace.len() == 0 ==> left == waker
    &&& trace.len() > 0 ==> trace[0].waker == waker && trace.last().left == left
    &&& forall|k: int|
        0 <= k < trace.len() ==> task::handed_on(
            (#[trigger] trace[k]).waker,
            trace[k].left,
        )
    &&& forall|j: int, k: int|
        0 <= j && k == j + 1 && k < trace.len() ==> (#[trigger] trace[k]).waker == (
        #[trigger] trace[j]).left
}

/// Whether each poll of `trace` polls the future whose turn it is.
pub open spec fn all_in_turn<F, T, E>(
    lock: SlotLock,
    start: Seq<Progress<F, T>>,
    trace: Seq<PollEvent<F, T, E>>,
) -> bool {
    forall|k: int| 0 <= k < trace.len() ==> #[trigger] in_turn(lock, start, trace, k)
}

/// Whether the polls of `trace` poll the futures in the given manner.
pub open spec fn in_manner<F, T, E>(
    start: Seq<Progress<F, T>>,
    trace: Seq<PollEvent<F, T, E>>,
    manner: Manner,
) -> bool {
    match manner {
        Manner::Sweep(waker, left) => sweeps(start, trace) && passed_on(trace, waker, left),
        Manner::Slots(lock, _) => all_in_turn(lock, start, trace),
        Manner::Any => true,
    }
}

/// Whether poll `k` of `trace` polls the future whose turn it is, with the waker of its
/// slot: the first that was never polled, or where there is none, one whose slot was
/// taken from the queue of those that were woken.
pub open spec fn in_turn<F, T, E>(
    lock: SlotLock,
    start: Seq<Progress<F, T>>,
    trace: Seq<PollEvent<F, T, E>>,
    k: int,
) -> bool {
    let now = run(start, trace.take(k));
    let i = trace[k].index;
    &&& slot_wakers::wakes(trace[k].waker, lock, i)
    &&& if polled_up_to(now, now.len() as int) {
        slot_wakers::called(lock, i)
    } else {
        fresh(now[i]) && polled_up_to(now, i)
    }
}

/// Whether a call that does not end the wait, with the polls of `trace`, sees to it that
/// it is made again when a future can go on. Where it is to be made again when a future is
/// woken, every future was polled, and no woken slot was left when the waker of the task
/// was registered. Else the task is woken: after as many polls as futures had not
/// completed, or after two futures woke themselves.
pub open spec fn waits<F, T, E>(
    start: Seq<Progress<F, T>>,
    end: Seq<Progress<F, T>>,
    trace: Seq<PollEvent<F, T, E>>,
    manner: Manner,
) -> bool {
    match manner {
        Manner::Slots(lock, waker) => {
            ||| polled_up_to(end, end.len() as int) && slot_wakers::idle(
                lock,
                waker,
                pending_of(end),
            )
            ||| task::woken(waker) && (trace.len() >= pending_count(start) || yielded_twice(
                lock,
                trace,
            ))
        },
        _ => true,
    }
}

/// Whether two polls of `trace` polled futures that were found woken after it.
pub open spec fn yielded_twice<F, T, E>(lock: SlotLock, trace: Seq<PollEvent<F, T, E>>) -> bool {
    exists|j: int, k: int|
        {
            &&& 0 <= j < k < trace.len()
            &&& yielded(lock, #[trigger] trace[j])
            &&& yielded(lock, #[trigger] trace[k])
        }
}

/// Whether the poll left its future uncompleted, and the future was found woken after it.
pub open spec fn yielded<F, T, E>(lock: SlotLock, event: PollEvent<F, T, E>) -> bool {
    event.result is Pending && slot_wakers::self_woken(lock, event.index)
}

/// Whether the future was never polled.
pub open spec fn fresh<F, T>(progress: Progress<F, T>) -> bool {
    progress matches Progress::Pending(waiting) && waiting.polls == 0
}

/// Whether each of the first `n` futures was polled.
pub open spec fn polled_up_to<F, T>(state: Seq<Progress<F, T>>, n: int) -> bool {
    forall|i: int| 0 <= i < n && i < state.len() ==> !fresh(#[trigger] state[i])
}

/// Whether, on the way from `start` to `end`, two more futures were polled for the
/// first time, in the order of the futures, or all that were left.
pub open spec fn taken_up<F, T>(start: Seq<Progress<F, T>>, end: Seq<Progress<F, T>>) -> bool {
    forall|n: int| 0 <= n && #[trigger] polled_up_to(start, n) ==> polled_up_to(end, n + 2)
}

/// Whether waiting for all futures takes them from `start` to `end` and gives
/// `result` in one call that makes the polls of `trace`. The polls are made in
/// the given manner, and record what the futures have given.
pub open spec fn try_joins<F, T, E>(
    start: Seq<Progress<F, T>>,
    end: Seq<Progress<F, T>>,
    result: Poll<Result<Seq<T>, E>>,
    manner: Manner,
    gives: Gives<F, T, E>,
    trace: Seq<PollEvent<F, T, E>>,
) -> bool {
    &&& valid(start, trace)
    &&& told(start, trace, gives)
    &&& in_manner(start, trace, manner)
    &&& result is Pending ==> taken_up(start, end) && waits(start, end, trace, manner)
    &&& end == remains(start, trace)
    &&& result == outcome(start, trace)
}

/// Whether waiting for all futures, none of which can fail, can have taken them
/// from `start` to `end` and given `result` in one call that polled them in the given
/// manner.
pub open spec fn joined<F, T>(
    start: Seq<Progress<F, T>>,
    end: Seq<Progress<F, T>>,
    result: Poll<Seq<T>>,
    manner: Manner,
    gives: Gives<F, T, ()>,
) -> bool {
    exists|trace: Seq<PollEvent<F, T, ()>>|
        no_failure(trace) && #[trigger] try_joins(
            start,
            end,
            succeeding(result),
            manner,
            gives,
            trace,
        )
}

/// Whether waiting for all futures can have taken them from `start` to `end` and
/// given `result` in one call that polled them in the given manner.
pub open spec fn try_joined<F, T, E>(
    start: Seq<Progress<F, T>>,
    end: Seq<Progress<F, T>>,
    result: Poll<Result<Seq<T>, E>>,
    manner: Manner,
    gives: Gives<F, T, E>,
) -> bool {
    exists|trace: Seq<PollEvent<F, T, E>>| #[trigger]
        try_joins(start, end, result, manner, gives, trace)
}

/// The outputs that `result` holds, as a sequence.
pub open spec fn viewed<T>(result: Poll<Vec<T>>) -> Poll<Seq<T>> {
    match result {
        Poll::Pending => Poll::Pending,
        Poll::Ready(outputs) => Poll::Ready(outputs@),
    }
}

/// The outputs that `result` holds, as a sequence.
pub open spec fn try_viewed<T, E>(result: Poll<Result<Vec<T>, E>>) -> Poll<Result<Seq<T>, E>> {
    match result {
        Poll::Pending => Poll::Pending,
        Poll::Ready(Ok(outputs)) => Poll::Ready(Ok(outputs@)),
        Poll::Ready(Err(error)) => Poll::Ready(Err(error)),
    }
}

/// Whether the polls of `trace`, at most `limit` and made in the given manner, take the
/// futures from `start` to `end` and give `signal`: all futures have completed, or one
/// of them has failed, or it is not over.
pub open spec fn advances<F, T, E>(
    start: Seq<Progress<F, T>>,
    end: Seq<Progress<F, T>>,
    signal: Poll<Result<(), E>>,
    limit: nat,
    manner: Manner,
    trace: Seq<PollEvent<F, T, E>>,
) -> bool {
    &&& valid(start, trace)
    &&& in_manner(start, trace, manner)
    &&& end == run(start, trace)
    &&& trace.len() <= limit
    &&& match signal {
        Poll::Ready(Err(error)) => trace.len() > 0 && trace.last().result == Poll::Ready(
            Err::<T, E>(error),
        ),
        Poll::Ready(Ok(())) => no_failure(trace) && pending_count(end) == 0,
        Poll::Pending => {
            &&& no_failure(trace)
            &&& pending_count(end) > 0
            &&& waits(start, end, trace, manner)
        },
    }
}

/// Whether a number of polls, at most `limit` and made in the given manner, can have
/// taken the futures from `start` to `end` and given `signal`: all futures have
/// completed, or one of them has failed, or it is not over.
pub open spec fn advanced<F, T, E>(
    start: Seq<Progress<F, T>>,
    end: Seq<Progress<F, T>>,
    signal: Poll<Result<(), E>>,
    limit: nat,
    manner: Manner,
) -> bool {
    exists|trace: Seq<PollEvent<F, T, E>>| #[trigger]
        advances(start, end, signal, limit, manner, trace)
}

/// Whether, on the way from `start` to `end`, the futures from position `from` up
/// to position `to` were polled for the first time. Where it is `unfinished`, these
/// are at least two, or no other future is left to be polled for the first time.
pub open spec fn went_on<F, T>(
    start: Seq<Progress<F, T>>,
    end: Seq<Progress<F, T>>,
    from: nat,
    to: nat,
    unfinished: bool,
) -> bool {
    &&& from <= to <= start.len()
    &&& forall|i: int| from <= i < to && start[i] is Pending ==> #[trigger] end[i] != start[i]
    &&& forall|i: int| to <= i < start.len() ==> #[trigger] end[i] == start[i]
    &&& unfinished ==> from + 2 <= to || forall|i: int|
        to <= i < start.len() ==> #[trigger] end[i] !is Pending
}

/// How many polls of `trace` poll the future at position `i`.
pub open spec fn times<F, T, E>(trace: Seq<PollEvent<F, T, E>>, i: int) -> nat
    decreases trace.len(),
{
    if trace.len() == 0 {
        0
    } else {
        times(trace.drop_last(), i) + if trace.last().index == i {
            1nat
        } else {
            0nat
        }
    }
}

/// For each future, whether it has not completed.
pub open spec fn pending_of<F, T>(state: Seq<Progress<F, T>>) -> Seq<bool> {
    Seq::new(state.len(), |i: int| state[i] is Pending)
}

/// The number of futures that have not completed.
pub open spec fn pending_count<F, T>(state: Seq<Progress<F, T>>) -> nat
    decreases state.len(),
{
    if state.len() == 0 {
        0
    } else {
        pending_count(state.drop_last()) + if state.last() is Pending {
            1nat
        } else {
            0nat
        }
    }
}

/// Polling changes the number of futures that have not completed by at most the
/// one that was polled.
pub proof fn lemma_pending_count_update<F, T>(
    state: Seq<Progress<F, T>>,
    i: int,
    progress: Progress<F, T>,
)
    requires
        0 <= i < state.len(),
    ensures
        pending_count(state.update(i, progress)) + (if state[i] is Pending {
            1int
        } else {
            0int
        }) == pending_count(state) + (if progress is Pending {
            1int
        } else {
            0int
        }),
    decreases state.len(),
{
    let after = state.update(i, progress);
    if i == state.len() - 1 {
        assert(after.drop_last() =~= state.drop_last());
    } else {
        assert(after.drop_last() =~= state.drop_last().update(i, progress));
        lemma_pending_count_update(state.drop_last(), i, progress);
    }
}

/// No future is counted as pending exactly when none is.
pub proof fn lemma_pending_count_zero<F, T>(state: Seq<Progress<F, T>>)
    ensures
        pending_count(state) == 0 <==> forall|i: int|
            0 <= i < state.len() ==> #[trigger] state[i] !is Pending,
        pending_count(state) <= state.len(),
    decreases state.len(),
{
    if state.len() > 0 {
        let rest = state.drop_last();
        lemma_pending_count_zero(rest);
        if pending_count(state) == 0 {
            assert forall|i: int| 0 <= i < state.len() implies #[trigger] state[i] !is Pending by {
                if i < rest.len() {
                    assert(rest[i] !is Pending);
                }
            }
        }
    }
}

/// Futures that were never polled are all pending.
pub proof fn lemma_pending_count_unstarted<F, T>(state: Seq<Progress<F, T>>)
    requires
        forall|i: int| 0 <= i < state.len() ==> #[trigger] state[i] is Pending,
    ensures
        pending_count(state) == state.len(),
    decreases state.len(),
{
    if state.len() > 0 {
        assert(state[state.len() - 1] is Pending);
        lemma_pending_count_unstarted(state.drop_last());
    }
}

/// One more poll of a future that has not completed.
pub proof fn lemma_run_step<F, T, E>(
    start: Seq<Progress<F, T>>,
    trace: Seq<PollEvent<F, T, E>>,
    event: PollEvent<F, T, E>,
)
    requires
        valid(start, trace),
        no_failure(trace),
        0 <= event.index < start.len(),
        run(start, trace)[event.index] is Pending,
    ensures
        valid(start, trace.push(event)),
        run(start, trace.push(event)) == run(start, trace).update(
            event.index,
            settle(run(start, trace)[event.index], event.waker, event.moved, event.result),
        ),
        !failed(event.result) ==> no_failure(trace.push(event)),
{
    assert(trace.push(event).drop_last() =~= trace);
}

/// One more poll that records what its future has given.
pub proof fn lemma_told_step<F, T, E>(
    start: Seq<Progress<F, T>>,
    trace: Seq<PollEvent<F, T, E>>,
    event: PollEvent<F, T, E>,
    gives: Gives<F, T, E>,
)
    requires
        told(start, trace, gives),
        gives(run(start, trace)[event.index]->Pending_0, event.waker, event.result),
    ensures
        told(start, trace.push(event), gives),
{
    let longer = trace.push(event);
    assert forall|k: int| 0 <= k < longer.len() implies #[trigger] tells(
        start,
        longer,
        gives,
        k,
    ) by {
        if k < trace.len() {
            assert(tells(start, trace, gives, k));
            assert(longer.take(k) =~= trace.take(k));
        } else {
            assert(longer.take(k) =~= trace);
        }
    }
}

/// Polls that record what their futures have given, after others that do.
pub proof fn lemma_told_concat<F, T, E>(
    start: Seq<Progress<F, T>>,
    first: Seq<PollEvent<F, T, E>>,
    second: Seq<PollEvent<F, T, E>>,
    gives: Gives<F, T, E>,
)
    requires
        valid(start, first),
        no_failure(first),
        valid(run(start, first), second),
        told(start, first, gives),
        told(run(start, first), second, gives),
    ensures
        told(start, first + second, gives),
{
    let all = first + second;
    assert forall|k: int| 0 <= k < all.len() implies #[trigger] tells(start, all, gives, k) by {
        if k < first.len() {
            assert(tells(start, first, gives, k));
            assert(all.take(k) =~= first.take(k));
        } else {
            let n = k - first.len();
            assert(tells(run(start, first), second, gives, n));
            assert(all.take(k) =~= first + second.take(n));
            lemma_valid_take(run(start, first), second, n);
            lemma_run_concat(start, first, second.take(n));
        }
    }
}

/// A future that has completed stays completed, with the same output.
pub proof fn lemma_done_stays<F, T, E>(
    start: Seq<Progress<F, T>>,
    trace: Seq<PollEvent<F, T, E>>,
    i: int,
)
    requires
        valid(start, trace),
        0 <= i < start.len(),
        start[i] is Done,
    ensures
        run(start, trace).len() == start.len(),
        run(start, trace)[i] == start[i],
    decreases trace.len(),
{
    if trace.len() > 0 {
        lemma_done_stays(start, trace.drop_last(), i);
    }
}

/// A future that has not completed is still the one that it was, and was polled
/// each time that a poll polled it.
pub proof fn lemma_pending_stays<F, T, E>(
    start: Seq<Progress<F, T>>,
    trace: Seq<PollEvent<F, T, E>>,
    i: int,
)
    requires
        valid(start, trace),
        0 <= i < start.len(),
        run(start, trace)[i] is Pending,
    ensures
        start[i] is Pending,
        run(start, trace)[i]->Pending_0.future == start[i]->Pending_0.future,
        run(start, trace)[i]->Pending_0.polls == start[i]->Pending_0.polls + times(trace, i),
        run(start, trace)[i]->Pending_0.tag == start[i]->Pending_0.tag,
        run(start, trace)[i]->Pending_0.finished == start[i]->Pending_0.finished,
    decreases trace.len(),
{
    if trace.len() > 0 {
        lemma_run_len(start, trace.drop_last());
        lemma_pending_stays(start, trace.drop_last(), i);
    }
}

/// A future that no poll polled is as it was, and one that had not completed and
/// was polled is not.
pub proof fn lemma_polled_differs<F, T, E>(
    start: Seq<Progress<F, T>>,
    trace: Seq<PollEvent<F, T, E>>,
    i: int,
)
    requires
        valid(start, trace),
        0 <= i < start.len(),
    ensures
        times(trace, i) == 0 ==> run(start, trace)[i] == start[i],
        times(trace, i) > 0 && start[i] is Pending ==> run(start, trace)[i] != start[i],
    decreases trace.len(),
{
    if trace.len() > 0 {
        lemma_run_len(start, trace.drop_last());
        lemma_polled_differs(start, trace.drop_last(), i);
        if run(start, trace)[i] is Pending {
            lemma_pending_stays(start, trace, i);
        }
    }
}

/// A future that was polled stays one that was polled.
pub proof fn lemma_polled_stays<F, T, E>(
    start: Seq<Progress<F, T>>,
    trace: Seq<PollEvent<F, T, E>>,
    n: int,
)
    requires
        valid(start, trace),
        polled_up_to(start, n),
    ensures
        polled_up_to(run(start, trace), n),
{
    let end = run(start, trace);
    lemma_run_len(start, trace);
    assert forall|i: int| 0 <= i < n && i < end.len() implies !fresh(#[trigger] end[i]) by {
        if end[i] is Pending {
            lemma_pending_stays(start, trace, i);
        }
    }
}

/// Polling leaves futures that may be polled.
pub proof fn lemma_all_live<F, T, E>(start: Seq<Progress<F, T>>, trace: Seq<PollEvent<F, T, E>>)
    requires
        valid(start, trace),
        all_live(start),
    ensures
        all_live(run(start, trace)),
{
    let end = run(start, trace);
    lemma_run_len(start, trace);
    assert forall|i: int| 0 <= i < end.len() implies live(#[trigger] end[i]) by {
        if end[i] is Pending {
            lemma_pending_stays(start, trace, i);
            assert(live(start[i]));
        }
    }
}

/// Polling keeps the number of futures.
pub proof fn lemma_run_len<F, T, E>(start: Seq<Progress<F, T>>, trace: Seq<PollEvent<F, T, E>>)
    requires
        valid(start, trace),
    ensures
        run(start, trace).len() == start.len(),
    decreases trace.len(),
{
    if trace.len() > 0 {
        lemma_run_len(start, trace.drop_last());
    }
}

/// Without a failure no output is lost.
pub proof fn lemma_none_gone<F, T, E>(start: Seq<Progress<F, T>>, trace: Seq<PollEvent<F, T, E>>)
    requires
        valid(start, trace),
        no_failure(trace),
        none_gone(start),
    ensures
        none_gone(run(start, trace)),
    decreases trace.len(),
{
    if trace.len() > 0 {
        let earlier = trace.drop_last();
        lemma_none_gone(start, earlier);
        lemma_run_len(start, earlier);
    }
}

/// What polls of futures until one of them fails give.
pub proof fn lemma_try_joined_by<F, T, E>(
    start: Seq<Progress<F, T>>,
    trace: Seq<PollEvent<F, T, E>>,
    manner: Manner,
    gives: Gives<F, T, E>,
)
    requires
        valid(start, trace),
        told(start, trace, gives),
        in_manner(start, trace, manner),
        outcome(start, trace) is Pending ==> taken_up(start, run(start, trace)) && waits(
            start,
            run(start, trace),
            trace,
            manner,
        ),
    ensures
        try_joined(start, remains(start, trace), outcome(start, trace), manner, gives),
{
    assert(try_joins(start, remains(start, trace), outcome(start, trace), manner, gives, trace));
}

/// What polls of futures none of which fails give.
pub proof fn lemma_joined_by<F, T>(
    start: Seq<Progress<F, T>>,
    trace: Seq<PollEvent<F, T, ()>>,
    manner: Manner,
    gives: Gives<F, T, ()>,
)
    requires
        valid(start, trace),
        told(start, trace, gives),
        no_failure(trace),
        in_manner(start, trace, manner),
        all_done(run(start, trace)) || (taken_up(start, run(start, trace)) && waits(
            start,
            run(start, trace),
            trace,
            manner,
        )),
    ensures
        all_done(run(start, trace)) ==> joined(
            start,
            Seq::empty(),
            Poll::Ready(outputs(run(start, trace))),
            manner,
            gives,
        ),
        !all_done(run(start, trace)) ==> joined(
            start,
            run(start, trace),
            Poll::<Seq<T>>::Pending,
            manner,
            gives,
        ),
{
    let end = run(start, trace);
    if all_done(end) {
        let result = Poll::Ready(outputs(end));
        assert(try_joins(start, Seq::empty(), succeeding(result), manner, gives, trace));
    } else {
        let result = Poll::<Seq<T>>::Pending;
        assert(try_joins(start, end, succeeding(result), manner, gives, trace));
    }
}

/// Futures that are polled for the first time after other polls are so after what
/// was before those.
pub proof fn lemma_taken_up_later<F, T, E>(
    start: Seq<Progress<F, T>>,
    trace: Seq<PollEvent<F, T, E>>,
    end: Seq<Progress<F, T>>,
)
    requires
        valid(start, trace),
        taken_up(run(start, trace), end),
    ensures
        taken_up(start, end),
{
    assert forall|n: int| 0 <= n && #[trigger] polled_up_to(start, n) implies polled_up_to(
        end,
        n + 2,
    ) by {
        lemma_polled_stays(start, trace, n);
    }
}

/// What polling the futures until one fails or all have completed gives, as what
/// waiting for all of them gives.
pub proof fn lemma_advances_joins<F, T, E>(
    start: Seq<Progress<F, T>>,
    end: Seq<Progress<F, T>>,
    signal: Poll<Result<(), E>>,
    limit: nat,
    manner: Manner,
    gives: Gives<F, T, E>,
    trace: Seq<PollEvent<F, T, E>>,
)
    requires
        advances(start, end, signal, limit, manner, trace),
        told(start, trace, gives),
        none_gone(start),
        signal is Pending ==> taken_up(start, end),
    ensures
        match signal {
            Poll::Pending => none_gone(end) && try_joins(
                start,
                end,
                Poll::<Result<Seq<T>, E>>::Pending,
                manner,
                gives,
                trace,
            ),
            Poll::Ready(Ok(_)) => all_done(end) && try_joins(
                start,
                Seq::empty(),
                Poll::Ready(Ok::<Seq<T>, E>(outputs(end))),
                manner,
                gives,
                trace,
            ),
            Poll::Ready(Err(error)) => try_joins(
                start,
                Seq::empty(),
                Poll::Ready(Err::<Seq<T>, E>(error)),
                manner,
                gives,
                trace,
            ),
        },
{
    if no_failure(trace) {
        lemma_none_gone(start, trace);
        lemma_pending_count_zero(end);
    }
}

/// Whether the same futures were never polled.
pub open spec fn same_fresh<F, T, G, U>(
    state: Seq<Progress<F, T>>,
    other: Seq<Progress<G, U>>,
) -> bool {
    &&& state.len() == other.len()
    &&& forall|i: int|
        0 <= i < state.len() ==> (fresh(#[trigger] state[i]) <==> fresh(#[trigger] other[i]))
}

/// Where the same futures have completed, as many have.
pub proof fn lemma_pending_count_same<F, T, G, U>(
    state: Seq<Progress<F, T>>,
    other: Seq<Progress<G, U>>,
)
    requires
        state.len() == other.len(),
        forall|i: int|
            0 <= i < state.len() ==> (#[trigger] state[i] is Pending <==> other[i] is Pending),
    ensures
        pending_count(state) == pending_count(other),
    decreases state.len(),
{
    if state.len() > 0 {
        let i = state.len() - 1;
        assert(state[i] is Pending <==> other[i] is Pending);
        lemma_pending_count_same(state.drop_last(), other.drop_last());
    }
}

/// Polls of the same futures with the same wakers are in turn where those are, as long as
/// the same futures were never polled.
pub proof fn lemma_same_turns<F, T, E, G, U, D>(
    lock: SlotLock,
    start: Seq<Progress<F, T>>,
    trace: Seq<PollEvent<F, T, E>>,
    other: Seq<Progress<G, U>>,
    polls: Seq<PollEvent<G, U, D>>,
)
    requires
        valid(start, trace),
        all_in_turn(lock, start, trace),
        polls.len() == trace.len(),
        forall|k: int|
            0 <= k < trace.len() ==> (#[trigger] polls[k]).index == trace[k].index
                && polls[k].waker == trace[k].waker,
        forall|k: int|
            0 <= k < trace.len() ==> same_fresh(
                run(start, #[trigger] trace.take(k)),
                run(other, polls.take(k)),
            ),
    ensures
        all_in_turn(lock, other, polls),
{
    assert forall|k: int| 0 <= k < polls.len() implies #[trigger] in_turn(lock, other, polls, k) by {
        assert(in_turn(lock, start, trace, k));
        let now = run(start, trace.take(k));
        let then = run(other, polls.take(k));
        assert(same_fresh(now, then));
        lemma_valid_take(start, trace, k);
        lemma_run_len(start, trace.take(k));
        assert(polls[k].index == trace[k].index);
        lemma_same_polled(now, then, now.len() as int);
        lemma_same_polled(now, then, trace[k].index);
    }
}

/// Where the same futures were never polled, the same were.
proof fn lemma_same_polled<F, T, G, U>(
    state: Seq<Progress<F, T>>,
    other: Seq<Progress<G, U>>,
    n: int,
)
    requires
        same_fresh(state, other),
    ensures
        polled_up_to(state, n) <==> polled_up_to(other, n),
{
    if polled_up_to(state, n) {
        assert forall|i: int| 0 <= i < n && i < other.len() implies !fresh(#[trigger] other[i]) by {
            assert(!fresh(state[i]));
        }
    }
    if polled_up_to(other, n) {
        assert forall|i: int| 0 <= i < n && i < state.len() implies !fresh(#[trigger] state[i]) by {
            assert(!fresh(other[i]));
        }
    }
}

/// Polls of the same futures that leave the same ones never polled see as well to it that
/// the call is made again.
pub proof fn lemma_same_waits<F, T, E, G, U, D>(
    start: Seq<Progress<F, T>>,
    end: Seq<Progress<F, T>>,
    trace: Seq<PollEvent<F, T, E>>,
    other: Seq<Progress<G, U>>,
    after: Seq<Progress<G, U>>,
    polls: Seq<PollEvent<G, U, D>>,
    lock: SlotLock,
    waker: Waker,
)
    requires
        waits(start, end, trace, Manner::Slots(lock, waker)),
        polls.len() == trace.len(),
        forall|k: int|
            0 <= k < trace.len() ==> (#[trigger] polls[k]).index == trace[k].index && (
            polls[k].result is Pending <==> trace[k].result is Pending),
        pending_count(start) == pending_count(other),
        pending_of(end) == pending_of(after),
        same_fresh(end, after),
    ensures
        waits(other, after, polls, Manner::Slots(lock, waker)),
{
    lemma_same_polled(end, after, end.len() as int);
    if yielded_twice(lock, trace) {
        let (j, k) = choose|j: int, k: int|
            {
                &&& 0 <= j < k < trace.len()
                &&& yielded(lock, #[trigger] trace[j])
                &&& yielded(lock, #[trigger] trace[k])
            };
        assert(yielded(lock, polls[j]) && yielded(lock, polls[k]));
    }
}

/// Polls in turn that go on from polls in turn are, with these, in turn.
pub proof fn lemma_turns_concat<F, T, E>(
    lock: SlotLock,
    start: Seq<Progress<F, T>>,
    first: Seq<PollEvent<F, T, E>>,
    second: Seq<PollEvent<F, T, E>>,
)
    requires
        valid(start, first),
        no_failure(first),
        valid(run(start, first), second),
        all_in_turn(lock, start, first),
        all_in_turn(lock, run(start, first), second),
    ensures
        all_in_turn(lock, start, first + second),
{
    let all = first + second;
    assert forall|k: int| 0 <= k < all.len() implies #[trigger] in_turn(lock, start, all, k) by {
        if k < first.len() {
            assert(in_turn(lock, start, first, k));
            assert(all.take(k) =~= first.take(k));
        } else {
            let n = k - first.len();
            assert(in_turn(lock, run(start, first), second, n));
            assert(all.take(k) =~= first + second.take(n));
            lemma_valid_take(run(start, first), second, n);
            lemma_run_concat(start, first, second.take(n));
        }
    }
}

/// Polls that see to it that the call is made again do so after earlier ones, as long as
/// these were as many as futures have completed in them.
pub proof fn lemma_waits_concat<F, T, E>(
    start: Seq<Progress<F, T>>,
    middle: Seq<Progress<F, T>>,
    end: Seq<Progress<F, T>>,
    first: Seq<PollEvent<F, T, E>>,
    second: Seq<PollEvent<F, T, E>>,
    lock: SlotLock,
    waker: Waker,
)
    requires
        waits(middle, end, second, Manner::Slots(lock, waker)),
        first.len() + pending_count(middle) >= pending_count(start),
    ensures
        waits(start, end, first + second, Manner::Slots(lock, waker)),
{
    let all = first + second;
    if yielded_twice(lock, second) {
        let (j, k) = choose|j: int, k: int|
            {
                &&& 0 <= j < k < second.len()
                &&& yielded(lock, #[trigger] second[j])
                &&& yielded(lock, #[trigger] second[k])
            };
        assert(all[j + first.len()] == second[j]);
        assert(all[k + first.len()] == second[k]);
        assert(yielded(lock, all[j + first.len()]) && yielded(lock, all[k + first.len()]));
    }
}

/// Polling each future that has not completed takes up all that were never polled.
pub proof fn lemma_sweep_takes_up<F, T, E>(
    start: Seq<Progress<F, T>>,
    trace: Seq<PollEvent<F, T, E>>,
)
    requires
        valid(start, trace),
        no_failure(trace),
        sweeps(start, trace),
    ensures
        taken_up(start, run(start, trace)),
{
    lemma_sweep_polls_all(start, trace);
}

/// Polling each future that has not completed leaves none that was never polled.
proof fn lemma_sweep_polls_all<F, T, E>(
    start: Seq<Progress<F, T>>,
    trace: Seq<PollEvent<F, T, E>>,
)
    requires
        valid(start, trace),
        no_failure(trace),
        sweeps(start, trace),
    ensures
        run(start, trace).len() == start.len(),
        forall|i: int| 0 <= i < start.len() ==> !fresh(#[trigger] run(start, trace)[i]),
{
    let end = run(start, trace);
    lemma_run_len(start, trace);
    assert forall|i: int| 0 <= i < end.len() implies !fresh(#[trigger] end[i]) by {
        if end[i] is Pending {
            lemma_pending_stays(start, trace, i);
            let k = choose|k: int| 0 <= k < trace.len() && (#[trigger] trace[k]).index == i;
            lemma_times(trace, k);
        }
    }
}

/// A poll counts.
pub proof fn lemma_times<F, T, E>(trace: Seq<PollEvent<F, T, E>>, k: int)
    requires
        0 <= k < trace.len(),
    ensures
        times(trace, trace[k].index) > 0,
    decreases trace.len(),
{
    if k < trace.len() - 1 {
        lemma_times(trace.drop_last(), k);
    }
}

/// A future that no poll polls is polled no times.
pub proof fn lemma_times_none<F, T, E>(trace: Seq<PollEvent<F, T, E>>, i: int)
    requires
        forall|k: int| 0 <= k < trace.len() ==> (#[trigger] trace[k]).index != i,
    ensures
        times(trace, i) == 0,
    decreases trace.len(),
{
    if trace.len() > 0 {
        let earlier = trace.drop_last();
        assert forall|k: int| 0 <= k < earlier.len() implies (#[trigger] earlier[k]).index != i by {
            assert(earlier[k] == trace[k]);
        }
        assert(trace[trace.len() - 1].index != i);
        lemma_times_none(earlier, i);
    }
}

/// The first polls of a sequence of polls are such a sequence.
pub proof fn lemma_valid_take<F, T, E>(
    start: Seq<Progress<F, T>>,
    trace: Seq<PollEvent<F, T, E>>,
    k: int,
)
    requires
        valid(start, trace),
        0 <= k <= trace.len(),
    ensures
        valid(start, trace.take(k)),
        k < trace.len() ==> no_failure(trace.take(k)),
        k < trace.len() ==> 0 <= trace[k].index < start.len() && run(
            start,
            trace.take(k),
        )[trace[k].index] is Pending,
    decreases trace.len(),
{
    if k == trace.len() {
        assert(trace.take(k) =~= trace);
    } else {
        let earlier = trace.drop_last();
        assert(trace.take(k) =~= earlier.take(k));
        if k == earlier.len() {
            assert(earlier.take(k) =~= earlier);
        } else {
            lemma_valid_take(start, earlier, k);
        }
    }
}

/// Polls that poll the futures from position `from` up to position `to`, and none
/// behind them, go on from the first to the second of these positions.
pub proof fn lemma_polls_go_on<F, T, E>(
    start: Seq<Progress<F, T>>,
    trace: Seq<PollEvent<F, T, E>>,
    from: nat,
    to: nat,
    unfinished: bool,
)
    requires
        valid(start, trace),
        from <= to <= start.len(),
        forall|i: int| from <= i < to && #[trigger] start[i] is Pending ==> times(trace, i) > 0,
        forall|i: int| to <= i < start.len() ==> #[trigger] run(start, trace)[i] == start[i],
        unfinished ==> from + 2 <= to || forall|i: int|
            to <= i < start.len() ==> #[trigger] start[i] !is Pending,
    ensures
        went_on(start, run(start, trace), from, to, unfinished),
{
    let end = run(start, trace);
    assert forall|i: int| from <= i < to && start[i] is Pending implies #[trigger] end[i]
        != start[i] by {
        lemma_polled_differs(start, trace, i);
    }
}

/// The first future that has not completed among those from position `from` on is
/// one of those that are counted.
pub proof fn lemma_pending_count_from<F, T>(state: Seq<Progress<F, T>>, from: int, i: int)
    requires
        0 <= from <= i < state.len(),
        state[i] is Pending,
        forall|j: int| from <= j < i ==> #[trigger] state[j] !is Pending,
    ensures
        pending_count(state.skip(from)) == 1 + pending_count(state.skip(i + 1)),
    decreases i - from,
{
    let rest = state.skip(from + 1);
    assert(state.skip(from) =~= seq![state[from]] + rest);
    lemma_pending_count_first(state[from], rest);
    if from < i {
        lemma_pending_count_from(state, from + 1, i);
    }
}

/// The first future is counted if it has not completed.
proof fn lemma_pending_count_first<F, T>(first: Progress<F, T>, rest: Seq<Progress<F, T>>)
    ensures
        pending_count(seq![first] + rest) == pending_count(rest) + (if first is Pending {
            1int
        } else {
            0int
        }),
    decreases rest.len(),
{
    let all = seq![first] + rest;
    if rest.len() == 0 {
        assert(pending_count(all.drop_last()) == 0);
    } else {
        assert(all.drop_last() =~= seq![first] + rest.drop_last());
        lemma_pending_count_first(first, rest.drop_last());
    }
}

/// No more futures have not completed among those from position `from` on than
/// among all of them.
pub proof fn lemma_pending_count_skip<F, T>(state: Seq<Progress<F, T>>, from: int)
    requires
        0 <= from <= state.len(),
    ensures
        pending_count(state.skip(from)) <= pending_count(state),
    decreases from,
{
    if from == 0 {
        assert(state.skip(0) =~= state);
    } else {
        assert(state.skip(from - 1) =~= seq![state[from - 1]] + state.skip(from));
        lemma_pending_count_first(state[from - 1], state.skip(from));
        lemma_pending_count_skip(state, from - 1);
    }
}

/// Where the futures from position `from` on are those that were never polled,
/// those from position `to` on are so afterwards.
pub proof fn lemma_went_on<F, T, E>(
    start: Seq<Progress<F, T>>,
    end: Seq<Progress<F, T>>,
    signal: Poll<Result<(), E>>,
    limit: nat,
    manner: Manner,
    from: nat,
    to: nat,
)
    requires
        advanced(start, end, signal, limit, manner),
        went_on(start, end, from, to, signal is Pending),
        forall|i: int| 0 <= i < start.len() ==> (fresh(#[trigger] start[i]) <==> from <= i),
    ensures
        end.len() == start.len(),
        forall|i: int| 0 <= i < end.len() ==> (fresh(#[trigger] end[i]) <==> to <= i),
        signal is Pending ==> taken_up(start, end),
{
    let trace = choose|trace: Seq<PollEvent<F, T, E>>| #[trigger]
        advances(start, end, signal, limit, manner, trace);
    lemma_run_len(start, trace);
    assert forall|i: int| 0 <= i < end.len() implies (fresh(#[trigger] end[i]) <==> to <= i) by {
        if i < to && end[i] is Pending {
            lemma_pending_stays(start, trace, i);
            lemma_polled_differs(start, trace, i);
        }
    }
    if signal is Pending {
        assert forall|n: int| 0 <= n && #[trigger] polled_up_to(start, n) implies polled_up_to(
            end,
            n + 2,
        ) by {
            if n > from && from < start.len() {
                assert(!fresh(start[from as int]));
            }
        }
    }
}

/// Polls of futures that have not completed do the same whatever the other futures
/// have come to.
pub proof fn lemma_same_polls<F, T, E>(
    start: Seq<Progress<F, T>>,
    other: Seq<Progress<F, T>>,
    trace: Seq<PollEvent<F, T, E>>,
)
    requires
        valid(start, trace),
        other.len() == start.len(),
        forall|i: int| 0 <= i < start.len() && #[trigger] start[i] is Pending ==> other[i] == start[i],
    ensures
        valid(other, trace),
        run(start, trace).len() == start.len(),
        run(other, trace).len() == start.len(),
        forall|i: int|
            0 <= i < start.len() ==> #[trigger] run(other, trace)[i] == (if start[i] is Pending {
                run(start, trace)[i]
            } else {
                other[i]
            }),
    decreases trace.len(),
{
    if trace.len() > 0 {
        let earlier = trace.drop_last();
        let event = trace.last();
        lemma_same_polls(start, other, earlier);
        lemma_run_len(start, earlier);
        lemma_pending_stays(start, earlier, event.index);
    }
}

/// Where the futures that have not completed are the same, what their polls have recorded
/// is what they have given as well.
pub proof fn lemma_same_told<F, T, E>(
    start: Seq<Progress<F, T>>,
    other: Seq<Progress<F, T>>,
    trace: Seq<PollEvent<F, T, E>>,
    gives: Gives<F, T, E>,
)
    requires
        valid(start, trace),
        told(start, trace, gives),
        other.len() == start.len(),
        forall|i: int| 0 <= i < start.len() && #[trigger] start[i] is Pending ==> other[i] == start[i],
    ensures
        told(other, trace, gives),
{
    assert forall|k: int| 0 <= k < trace.len() implies #[trigger] tells(
        other,
        trace,
        gives,
        k,
    ) by {
        assert(tells(start, trace, gives, k));
        lemma_valid_take(start, trace, k);
        lemma_same_polls(start, other, trace.take(k));
        lemma_pending_stays(start, trace.take(k), trace[k].index);
    }
}

/// Polls that leave each future uncompleted change neither the number of futures
/// that have not completed nor the other futures.
pub proof fn lemma_all_waited<F, T, E>(start: Seq<Progress<F, T>>, trace: Seq<PollEvent<F, T, E>>)
    requires
        valid(start, trace),
        all_waited(trace),
    ensures
        no_failure(trace),
        run(start, trace).len() == start.len(),
        pending_count(run(start, trace)) == pending_count(start),
        forall|i: int|
            0 <= i < start.len() ==> (#[trigger] run(start, trace)[i] is Pending <==> start[i]
                is Pending),
        forall|i: int|
            0 <= i < start.len() && start[i] !is Pending ==> #[trigger] run(start, trace)[i]
                == start[i],
    decreases trace.len(),
{
    if trace.len() > 0 {
        let earlier = trace.drop_last();
        let event = trace.last();
        lemma_all_waited(start, earlier);
        let before = run(start, earlier);
        let after = settle(before[event.index], event.waker, event.moved, event.result);
        lemma_pending_count_update(before, event.index, after);
    }
}

/// Polls that follow other polls go on from where those have led.
pub proof fn lemma_run_concat<F, T, E>(
    start: Seq<Progress<F, T>>,
    first: Seq<PollEvent<F, T, E>>,
    second: Seq<PollEvent<F, T, E>>,
)
    requires
        valid(start, first),
        no_failure(first),
        valid(run(start, first), second),
    ensures
        valid(start, first + second),
        run(start, first + second) == run(run(start, first), second),
        no_failure(second) ==> no_failure(first + second),
    decreases second.len(),
{
    let all = first + second;
    lemma_run_len(start, first);
    if second.len() > 0 {
        let earlier = second.drop_last();
        assert(all.drop_last() =~= first + earlier);
        lemma_run_concat(start, first, earlier);
    }
}

/// A call that did not end the wait and the next one do together what one call
/// may do that makes the polls of both. So whatever holds of one call holds of
/// any number of calls.
pub proof fn lemma_try_joined_compose<F, T, E>(
    start: Seq<Progress<F, T>>,
    middle: Seq<Progress<F, T>>,
    end: Seq<Progress<F, T>>,
    result: Poll<Result<Seq<T>, E>>,
    first_manner: Manner,
    second_manner: Manner,
    gives: Gives<F, T, E>,
)
    requires
        try_joined(start, middle, Poll::<Result<Seq<T>, E>>::Pending, first_manner, gives),
        try_joined(middle, end, result, second_manner, gives),
    ensures
        try_joined(start, end, result, Manner::Any, gives),
{
    let waiting = Poll::<Result<Seq<T>, E>>::Pending;
    let first = choose|trace: Seq<PollEvent<F, T, E>>| #[trigger]
        try_joins(start, middle, waiting, first_manner, gives, trace);
    let second = choose|trace: Seq<PollEvent<F, T, E>>| #[trigger]
        try_joins(middle, end, result, second_manner, gives, trace);
    lemma_pending_no_failure(start, first);
    lemma_compose(start, middle, end, result, first_manner, second_manner, gives, first, second);
}

/// The polls of two calls, the first of which did not end the wait, as those of one.
proof fn lemma_compose<F, T, E>(
    start: Seq<Progress<F, T>>,
    middle: Seq<Progress<F, T>>,
    end: Seq<Progress<F, T>>,
    result: Poll<Result<Seq<T>, E>>,
    first_manner: Manner,
    second_manner: Manner,
    gives: Gives<F, T, E>,
    first: Seq<PollEvent<F, T, E>>,
    second: Seq<PollEvent<F, T, E>>,
)
    requires
        try_joins(start, middle, Poll::<Result<Seq<T>, E>>::Pending, first_manner, gives, first),
        no_failure(first),
        try_joins(middle, end, result, second_manner, gives, second),
    ensures
        try_joins(start, end, result, Manner::Any, gives, first + second),
        no_failure(second) ==> no_failure(first + second),
{
    lemma_run_concat(start, first, second);
    lemma_told_concat(start, first, second, gives);
}

/// As [`lemma_try_joined_compose`], of futures that cannot fail.
pub proof fn lemma_joined_compose<F, T>(
    start: Seq<Progress<F, T>>,
    middle: Seq<Progress<F, T>>,
    end: Seq<Progress<F, T>>,
    result: Poll<Seq<T>>,
    first_manner: Manner,
    second_manner: Manner,
    gives: Gives<F, T, ()>,
)
    requires
        joined(start, middle, Poll::<Seq<T>>::Pending, first_manner, gives),
        joined(middle, end, result, second_manner, gives),
    ensures
        joined(start, end, result, Manner::Any, gives),
{
    let waiting = succeeding(Poll::<Seq<T>>::Pending);
    let first = choose|trace: Seq<PollEvent<F, T, ()>>|
        no_failure(trace) && #[trigger] try_joins(start, middle, waiting, first_manner, gives, trace);
    let second = choose|trace: Seq<PollEvent<F, T, ()>>|
        no_failure(trace) && #[trigger] try_joins(
            middle,
            end,
            succeeding(result),
            second_manner,
            gives,
            trace,
        );
    lemma_compose(
        start,
        middle,
        end,
        succeeding(result),
        first_manner,
        second_manner,
        gives,
        first,
        second,
    );
}

/// An error is returned at once: where the wait is not over, or has ended with
/// all outputs, no poll has failed.
pub proof fn lemma_pending_no_failure<F, T, E>(
    start: Seq<Progress<F, T>>,
    trace: Seq<PollEvent<F, T, E>>,
)
    requires
        valid(start, trace),
        !(outcome(start, trace) matches Poll::Ready(Err(_))),
    ensures
        no_failure(trace),
{
    if trace.len() > 0 {
        let earlier = trace.drop_last();
        assert forall|k: int| 0 <= k < trace.len() implies !failed(#[trigger] trace[k].result) by {
            if k < earlier.len() {
                assert(!failed(earlier[k].result));
            }
        }
    }
}

/// The error that ends the wait is the one that a future has just returned, and
/// no poll has failed before.
pub proof fn lemma_first_failure<F, T, E>(
    start: Seq<Progress<F, T>>,
    trace: Seq<PollEvent<F, T, E>>,
    gives: Gives<F, T, E>,
    error: E,
)
    requires
        valid(start, trace),
        told(start, trace, gives),
        outcome(start, trace) == Poll::Ready(Err::<Seq<T>, E>(error)),
    ensures
        trace.len() > 0,
        trace.last().result == Poll::Ready(Err::<T, E>(error)),
        gives(
            run(start, trace.drop_last())[trace.last().index]->Pending_0,
            trace.last().waker,
            Poll::Ready(Err::<T, E>(error)),
        ),
        no_failure(trace.drop_last()),
        remains(start, trace) == Seq::<Progress<F, T>>::empty(),
{
    let last = trace.len() - 1;
    assert(tells(start, trace, gives, last));
    assert(trace.take(last) =~= trace.drop_last());
}

/// Where a call polls each future in order, the error that ends the wait is that of the
/// first future that fails: each one before it that had not completed was polled and has
/// not failed.
pub proof fn lemma_lowest_failure<F, T, E>(
    start: Seq<Progress<F, T>>,
    trace: Seq<PollEvent<F, T, E>>,
    gives: Gives<F, T, E>,
    error: E,
    i: int,
)
    requires
        valid(start, trace),
        told(start, trace, gives),
        sweeps(start, trace),
        outcome(start, trace) == Poll::Ready(Err::<Seq<T>, E>(error)),
        0 <= i < trace.last().index,
        start[i] is Pending,
    ensures
        exists|k: int|
            {
                &&& 0 <= k < trace.len()
                &&& (#[trigger] trace[k]).index == i
                &&& !failed(trace[k].result)
                &&& tells(start, trace, gives, k)
            },
{
    let last = trace.len() - 1;
    lemma_valid_take(start, trace, last);
    let k = choose|k: int| 0 <= k < trace.len() && (#[trigger] trace[k]).index == i;
    assert(trace.drop_last()[k] == trace[k]);
    assert(tells(start, trace, gives, k));
}

/// A future is not polled again once it has completed.
pub proof fn lemma_not_polled_again<F, T, E>(
    start: Seq<Progress<F, T>>,
    trace: Seq<PollEvent<F, T, E>>,
    j: int,
    k: int,
)
    requires
        valid(start, trace),
        0 <= j < k < trace.len(),
        trace[j].index == trace[k].index,
    ensures
        trace[j].result is Pending,
    decreases trace.len(),
{
    let earlier = trace.drop_last();
    if k < earlier.len() {
        lemma_not_polled_again(start, earlier, j, k);
    } else {
        lemma_settled_by(start, earlier, j);
    }
}

/// A poll that completes a future is what the future has come to.
pub proof fn lemma_settled_by<F, T, E>(
    start: Seq<Progress<F, T>>,
    trace: Seq<PollEvent<F, T, E>>,
    j: int,
)
    requires
        valid(start, trace),
        0 <= j < trace.len(),
    ensures
        0 <= trace[j].index < start.len(),
        trace[j].result !is Pending ==> run(start, trace)[trace[j].index] == settle(
            start[trace[j].index],
            trace[j].waker,
            trace[j].moved,
            trace[j].result,
        ),
        trace[j].result !is Pending ==> run(start, trace)[trace[j].index] !is Pending,
    decreases trace.len(),
{
    let earlier = trace.drop_last();
    lemma_run_len(start, earlier);
    if j < earlier.len() {
        lemma_settled_by(start, earlier, j);
    } else {
        lemma_pending_stays(start, earlier, trace[j].index);
    }
}

/// The outputs are in the order of the futures: the output at a position is what polling
/// the future that was given at this position has given.
pub proof fn lemma_outputs_in_order<F, T, E>(
    futures: Seq<F>,
    start: Seq<Progress<F, T>>,
    trace: Seq<PollEvent<F, T, E>>,
    gives: Gives<F, T, E>,
    outputs: Seq<T>,
)
    requires
        unstarted(start, futures),
        valid(start, trace),
        told(start, trace, gives),
        outcome(start, trace) == Poll::Ready(Ok::<Seq<T>, E>(outputs)),
    ensures
        outputs.len() == futures.len(),
        forall|i: int|
            0 <= i < futures.len() ==> completed_with(
                start,
                trace,
                gives,
                i,
                #[trigger] outputs[i],
            ),
        forall|k: int|
            0 <= k < trace.len() && (#[trigger] trace[k]).result is Ready ==> 0 <= trace[k].index
                < outputs.len() && trace[k].result == Poll::Ready(
                Ok::<T, E>(outputs[trace[k].index]),
            ),
{
    lemma_run_len(start, trace);
    lemma_pending_no_failure(start, trace);
    assert forall|i: int| 0 <= i < futures.len() implies completed_with(
        start,
        trace,
        gives,
        i,
        #[trigger] outputs[i],
    ) by {
        assert(begins_with(start[i], futures[i]));
        lemma_output_given(start, trace, gives, i);
    }
    assert forall|k: int| 0 <= k < trace.len() && (#[trigger] trace[k]).result is Ready implies 0
        <= trace[k].index < outputs.len() && trace[k].result == Poll::Ready(
        Ok::<T, E>(outputs[trace[k].index]),
    ) by {
        lemma_settled_by(start, trace, k);
    }
}

/// An output that is kept is the one that polling its future has given.
pub proof fn lemma_output_given<F, T, E>(
    start: Seq<Progress<F, T>>,
    trace: Seq<PollEvent<F, T, E>>,
    gives: Gives<F, T, E>,
    i: int,
)
    requires
        valid(start, trace),
        told(start, trace, gives),
        0 <= i < start.len(),
        start[i] is Pending,
        run(start, trace)[i] is Done,
    ensures
        completed_with(start, trace, gives, i, run(start, trace)[i]->Done_0),
{
    let k = lemma_done_by(start, trace, i);
    assert(trace[k].index == i && tells(start, trace, gives, k));
}

/// Where a call polls each future once and ends with all outputs, the output at a position
/// is what polling the future at this position, as it was before the call, has given.
pub proof fn lemma_swept_outputs<F, T, E>(
    start: Seq<Progress<F, T>>,
    end: Seq<Progress<F, T>>,
    outputs: Seq<T>,
    waker: Waker,
    left: Waker,
    gives: Gives<F, T, E>,
    i: int,
)
    requires
        try_joined(
            start,
            end,
            Poll::Ready(Ok::<Seq<T>, E>(outputs)),
            Manner::Sweep(waker, left),
            gives,
        ),
        0 <= i < start.len(),
        start[i] is Pending,
    ensures
        outputs.len() == start.len(),
        exists|used: Waker| #[trigger]
            gives(start[i]->Pending_0, used, Poll::Ready(Ok::<T, E>(outputs[i]))),
{
    let result = Poll::Ready(Ok::<Seq<T>, E>(outputs));
    let trace = choose|trace: Seq<PollEvent<F, T, E>>| #[trigger]
        try_joins(start, end, result, Manner::Sweep(waker, left), gives, trace);
    lemma_run_len(start, trace);
    lemma_pending_no_failure(start, trace);
    let k = lemma_done_by(start, trace, i);
    let first = trace.take(k);
    assert(tells(start, trace, gives, k));
    lemma_valid_take(start, trace, k);
    assert forall|j: int| 0 <= j < first.len() implies (#[trigger] first[j]).index != i by {
        assert(first[j] == trace[j]);
        assert(trace[j].index < trace[k].index);
    }
    lemma_times_none(first, i);
    lemma_polled_differs(start, first, i);
    let output = Poll::Ready(Ok::<T, E>(outputs[i]));
    assert(gives(start[i]->Pending_0, trace[k].waker, output));
}

/// The wait ends with all outputs exactly when every future has given its output and none
/// has failed.
pub proof fn lemma_ready_when_all_gave<F, T, E>(
    start: Seq<Progress<F, T>>,
    trace: Seq<PollEvent<F, T, E>>,
    gives: Gives<F, T, E>,
)
    requires
        valid(start, trace),
        told(start, trace, gives),
    ensures
        outcome(start, trace) matches Poll::Ready(Ok(_)) <==> no_failure(trace) && forall|i: int|
            0 <= i < start.len() ==> #[trigger] start[i] is Done || exists|output: T|
                completed_with(start, trace, gives, i, output),
{
    let end = run(start, trace);
    lemma_run_len(start, trace);
    if outcome(start, trace) matches Poll::Ready(Ok(_)) {
        lemma_pending_no_failure(start, trace);
        assert forall|i: int| 0 <= i < start.len() implies #[trigger] start[i] is Done || exists|
            output: T,
        |
            completed_with(start, trace, gives, i, output) by {
            assert(end[i] is Done);
            if start[i] is Pending {
                lemma_output_given(start, trace, gives, i);
            } else if start[i] is Gone {
                lemma_gone_stays(start, trace, i);
            }
        }
    }
    if no_failure(trace) && forall|i: int|
        0 <= i < start.len() ==> #[trigger] start[i] is Done || exists|output: T|
            completed_with(start, trace, gives, i, output) {
        assert forall|i: int| 0 <= i < end.len() implies #[trigger] end[i] is Done by {
            if start[i] is Done {
                lemma_done_stays(start, trace, i);
            } else {
                let output = choose|output: T| completed_with(start, trace, gives, i, output);
                let k = choose|k: int|
                    {
                        &&& 0 <= k < trace.len()
                        &&& (#[trigger] trace[k]).index == i
                        &&& trace[k].result == Poll::Ready(Ok::<T, E>(output))
                        &&& tells(start, trace, gives, k)
                    };
                lemma_settled_by(start, trace, k);
            }
        }
        if trace.len() > 0 {
            assert(!failed(trace[trace.len() - 1].result));
        }
    }
}

/// A future whose output was handed out is not polled.
proof fn lemma_gone_stays<F, T, E>(
    start: Seq<Progress<F, T>>,
    trace: Seq<PollEvent<F, T, E>>,
    i: int,
)
    requires
        valid(start, trace),
        0 <= i < start.len(),
        start[i] is Gone,
    ensures
        run(start, trace)[i] is Gone,
    decreases trace.len(),
{
    if trace.len() > 0 {
        lemma_run_len(start, trace.drop_last());
        lemma_gone_stays(start, trace.drop_last(), i);
    }
}

/// The wait is not over while every poll leaves its future uncompleted.
pub proof fn lemma_pending_while_all_wait<F, T, E>(
    start: Seq<Progress<F, T>>,
    trace: Seq<PollEvent<F, T, E>>,
    i: int,
)
    requires
        valid(start, trace),
        all_waited(trace),
        0 <= i < start.len(),
        start[i] is Pending,
    ensures
        outcome(start, trace) is Pending,
{
    lemma_all_waited(start, trace);
    assert(run(start, trace)[i] is Pending);
    if trace.len() > 0 {
        assert(trace[trace.len() - 1].result is Pending);
    }
}

/// A future that has completed has done so by one of the polls.
proof fn lemma_done_by<F, T, E>(
    start: Seq<Progress<F, T>>,
    trace: Seq<PollEvent<F, T, E>>,
    i: int,
) -> (k: int)
    requires
        valid(start, trace),
        0 <= i < start.len(),
        start[i] is Pending,
        run(start, trace)[i] is Done,
    ensures
        0 <= k < trace.len(),
        trace[k].index == i,
        trace[k].result == Poll::Ready(Ok::<T, E>(run(start, trace)[i]->Done_0)),
    decreases trace.len(),
{
    let earlier = trace.drop_last();
    lemma_run_len(start, earlier);
    let event = trace.last();
    if event.index == i && event.result !is Pending {
        trace.len() - 1
    } else {
        lemma_done_by(start, earlier, i)
    }
}

/// An output that is there stays there until all outputs are handed out.
pub proof fn lemma_outputs_kept<F, T, E>(
    start: Seq<Progress<F, T>>,
    end: Seq<Progress<F, T>>,
    result: Poll<Result<Seq<T>, E>>,
    manner: Manner,
    gives: Gives<F, T, E>,
    i: int,
)
    requires
        try_joined(start, end, result, manner, gives),
        0 <= i < start.len(),
    ensures
        result is Pending ==> end.len() == start.len(),
        result is Pending && end[i] is Pending ==> start[i] is Pending
            && end[i]->Pending_0.future == start[i]->Pending_0.future,
        result is Pending && start[i] is Done ==> end[i] == start[i],
        result matches Poll::Ready(Ok(outputs)) ==> outputs.len() == start.len(),
        result matches Poll::Ready(Ok(outputs)) ==> (start[i] matches Progress::Done(output)
            ==> outputs[i] == output),
        result is Ready ==> end.len() == 0,
{
    let trace = choose|trace: Seq<PollEvent<F, T, E>>| #[trigger]
        try_joins(start, end, result, manner, gives, trace);
    lemma_run_len(start, trace);
    if start[i] is Done {
        lemma_done_stays(start, trace, i);
    }
    if run(start, trace)[i] is Pending {
        lemma_pending_stays(start, trace, i);
    }
}

/// What waiting for futures that cannot fail does is what waiting for futures
/// that can would do.
pub proof fn lemma_joined_is_try_joined<F, T>(
    start: Seq<Progress<F, T>>,
    end: Seq<Progress<F, T>>,
    result: Poll<Seq<T>>,
    manner: Manner,
    gives: Gives<F, T, ()>,
)
    requires
        joined(start, end, result, manner, gives),
    ensures
        try_joined(start, end, succeeding(result), manner, gives),
{
}

/// Polls of ever later futures poll each future at most once.
proof fn lemma_times_once<F, T, E>(trace: Seq<PollEvent<F, T, E>>, i: int)
    requires
        forall|j: int, k: int|
            0 <= j < k < trace.len() ==> (#[trigger] trace[j]).index < (#[trigger] trace[k]).index,
    ensures
        times(trace, i) <= 1,
        trace.len() > 0 && trace.last().index < i ==> times(trace, i) == 0,
    decreases trace.len(),
{
    if trace.len() > 0 {
        let earlier = trace.drop_last();
        lemma_times_once(earlier, i);
    }
}

/// A call that polls all futures polls each of those that have not completed after
/// it exactly once.
pub proof fn lemma_each_polled_once<F, T, E>(
    start: Seq<Progress<F, T>>,
    end: Seq<Progress<F, T>>,
    waker: Waker,
    left: Waker,
    gives: Gives<F, T, E>,
    i: int,
)
    requires
        try_joined(
            start,
            end,
            Poll::<Result<Seq<T>, E>>::Pending,
            Manner::Sweep(waker, left),
            gives,
        ),
        0 <= i < end.len(),
        end[i] is Pending,
    ensures
        end.len() == start.len(),
        start[i] is Pending,
        end[i]->Pending_0.future == start[i]->Pending_0.future,
        end[i]->Pending_0.polls == start[i]->Pending_0.polls + 1,
{
    let waiting = Poll::<Result<Seq<T>, E>>::Pending;
    let trace = choose|trace: Seq<PollEvent<F, T, E>>| #[trigger]
        try_joins(start, end, waiting, Manner::Sweep(waker, left), gives, trace);
    lemma_pending_no_failure(start, trace);
    lemma_run_len(start, trace);
    lemma_pending_stays(start, trace, i);
    lemma_times_once(trace, i);
    let k = choose|k: int| 0 <= k < trace.len() && (#[trigger] trace[k]).index == i;
    lemma_times(trace, k);
}

/// Polls that poll each future once, in order, until one of them fails, poll each future that
/// has not completed exactly once, up to the one that fails, and none behind it.
pub proof fn lemma_swept_once<F, T, E>(
    start: Seq<Progress<F, T>>,
    trace: Seq<PollEvent<F, T, E>>,
    i: int,
)
    requires
        valid(start, trace),
        sweeps(start, trace),
        0 <= i < start.len(),
        start[i] is Pending,
    ensures
        no_failure(trace) || i <= trace.last().index ==> times(trace, i) == 1,
        !no_failure(trace) && trace.last().index < i ==> times(trace, i) == 0 && run(
            start,
            trace,
        )[i] == start[i],
{
    lemma_times_once(trace, i);
    if no_failure(trace) || i <= trace.last().index {
        let k = choose|k: int| 0 <= k < trace.len() && (#[trigger] trace[k]).index == i;
        lemma_times(trace, k);
    } else {
        lemma_polled_differs(start, trace, i);
    }
}

/// Whether a future that has not completed since it was polled was given the waker of
/// its slot the last time.
pub open spec fn own_waker<F, T>(lock: SlotLock, progress: Progress<F, T>, i: int) -> bool {
    progress matches Progress::Pending(waiting) ==> (waiting.waker matches Some(waker)
        ==> slot_wakers::wakes(waker, lock, i))
}

/// Where only the futures that were woken are polled, each future that waits for a
/// wake-up has been given the waker of its slot.
pub proof fn lemma_own_wakers<F, T, E>(
    start: Seq<Progress<F, T>>,
    end: Seq<Progress<F, T>>,
    lock: SlotLock,
    waker: Waker,
    gives: Gives<F, T, E>,
)
    requires
        try_joined(
            start,
            end,
            Poll::<Result<Seq<T>, E>>::Pending,
            Manner::Slots(lock, waker),
            gives,
        ),
        forall|i: int| 0 <= i < start.len() ==> own_waker(lock, #[trigger] start[i], i),
    ensures
        forall|i: int| 0 <= i < end.len() ==> own_waker(lock, #[trigger] end[i], i),
{
    let waiting = Poll::<Result<Seq<T>, E>>::Pending;
    let trace = choose|trace: Seq<PollEvent<F, T, E>>| #[trigger]
        try_joins(start, end, waiting, Manner::Slots(lock, waker), gives, trace);
    assert forall|k: int| 0 <= k < trace.len() implies slot_wakers::wakes(
        (#[trigger] trace[k]).waker,
        lock,
        trace[k].index,
    ) by {
        assert(in_turn(lock, start, trace, k));
    }
    lemma_own_wakers_after(start, trace, lock);
}

proof fn lemma_own_wakers_after<F, T, E>(
    start: Seq<Progress<F, T>>,
    trace: Seq<PollEvent<F, T, E>>,
    lock: SlotLock,
)
    requires
        valid(start, trace),
        forall|k: int|
            0 <= k < trace.len() ==> slot_wakers::wakes(
                (#[trigger] trace[k]).waker,
                lock,
                trace[k].index,
            ),
        forall|i: int| 0 <= i < start.len() ==> own_waker(lock, #[trigger] start[i], i),
    ensures
        run(start, trace).len() == start.len(),
        forall|i: int| 0 <= i < start.len() ==> own_waker(lock, #[trigger] run(start, trace)[i], i),
    decreases trace.len(),
{
    if trace.len() > 0 {
        let earlier = trace.drop_last();
        assert forall|k: int| 0 <= k < earlier.len() implies slot_wakers::wakes(
            (#[trigger] earlier[k]).waker,
            lock,
            earlier[k].index,
        ) by {
            assert(earlier[k] == trace[k]);
        }
        lemma_own_wakers_after(start, earlier, lock);
        assert(slot_wakers::wakes(trace[trace.len() - 1].waker, lock, trace[trace.len() - 1].index));
    }
}

/// Of many futures only those are polled that were never polled or that were woken.
pub proof fn lemma_only_woken_polled<F, T, E>(
    start: Seq<Progress<F, T>>,
    trace: Seq<PollEvent<F, T, E>>,
    lock: SlotLock,
    waker: Waker,
    k: int,
)
    requires
        valid(start, trace),
        in_manner(start, trace, Manner::Slots(lock, waker)),
        0 <= k < trace.len(),
    ensures
        fresh(run(start, trace.take(k))[trace[k].index]) || slot_wakers::called(
            lock,
            trace[k].index,
        ),
{
    assert(in_turn(lock, start, trace, k));
}

/// A wait for many futures that is not over has woken its task, or has polled every future
/// and left no woken slot when it registered the waker of the task.
pub proof fn lemma_polled_again<F, T, E>(
    start: Seq<Progress<F, T>>,
    end: Seq<Progress<F, T>>,
    lock: SlotLock,
    waker: Waker,
    gives: Gives<F, T, E>,
)
    requires
        try_joined(
            start,
            end,
            Poll::<Result<Seq<T>, E>>::Pending,
            Manner::Slots(lock, waker),
            gives,
        ),
    ensures
        task::woken(waker) || (polled_up_to(end, end.len() as int) && slot_wakers::idle(
            lock,
            waker,
            pending_of(end),
        )),
{
}

/// However often a wait is polled without ending, its futures are polled one after
/// the other: after `n` calls, each of the first `2 * n` futures was polled. So
/// every future is polled.
pub proof fn lemma_every_future_polled<F, T, E>(
    states: Seq<Seq<Progress<F, T>>>,
    manners: Seq<Manner>,
    gives: Gives<F, T, E>,
)
    requires
        states.len() > 0,
        forall|k: int|
            0 < k < states.len() ==> try_joined(
                states[k - 1],
                #[trigger] states[k],
                Poll::<Result<Seq<T>, E>>::Pending,
                manners[k],
                gives,
            ),
    ensures
        polled_up_to(states.last(), 2 * (states.len() - 1)),
    decreases states.len(),
{
    if states.len() > 1 {
        let earlier = states.drop_last();
        lemma_every_future_polled(earlier, manners, gives);
    }
}

/// Whether the futures are polled for the first time in order: those that were never polled
/// come after those that were.
pub open spec fn in_order<F, T>(state: Seq<Progress<F, T>>) -> bool {
    forall|i: int, j: int|
        0 <= i < j < state.len() && fresh(#[trigger] state[i]) ==> fresh(#[trigger] state[j])
}

/// Polls in turn poll the futures for the first time in order.
proof fn lemma_turns_in_order<F, T, E>(
    lock: SlotLock,
    start: Seq<Progress<F, T>>,
    trace: Seq<PollEvent<F, T, E>>,
)
    requires
        valid(start, trace),
        all_in_turn(lock, start, trace),
        in_order(start),
    ensures
        in_order(run(start, trace)),
    decreases trace.len(),
{
    if trace.len() > 0 {
        let earlier = trace.drop_last();
        let last = trace.len() - 1;
        assert forall|k: int| 0 <= k < earlier.len() implies #[trigger] in_turn(
            lock,
            start,
            earlier,
            k,
        ) by {
            assert(in_turn(lock, start, trace, k));
            assert(earlier.take(k) =~= trace.take(k));
        }
        lemma_turns_in_order(lock, start, earlier);
        lemma_run_len(start, earlier);
        assert(in_turn(lock, start, trace, last));
        assert(trace.take(last) =~= earlier);
        let now = run(start, earlier);
        let end = run(start, trace);
        assert forall|i: int, j: int|
            0 <= i < j < end.len() && fresh(#[trigger] end[i]) implies fresh(#[trigger] end[j]) by {
            assert(fresh(now[i]));
            assert(fresh(now[j]));
        }
    }
}

/// However often a wait is polled without ending, each future is polled for the first time
/// only when those before it were.
pub proof fn lemma_first_polls_in_order<F, T, E>(
    states: Seq<Seq<Progress<F, T>>>,
    manners: Seq<Manner>,
    gives: Gives<F, T, E>,
)
    requires
        states.len() > 0,
        in_order(states[0]),
        forall|k: int|
            0 < k < states.len() ==> try_joined(
                states[k - 1],
                #[trigger] states[k],
                Poll::<Result<Seq<T>, E>>::Pending,
                manners[k],
                gives,
            ),
        forall|k: int| 0 < k < states.len() ==> !(#[trigger] manners[k] is Any),
    ensures
        in_order(states.last()),
    decreases states.len(),
{
    if states.len() > 1 {
        lemma_first_polls_in_order(states.drop_last(), manners, gives);
        let n = states.len() - 1;
        let start = states[n - 1];
        let end = states[n];
        assert(!(manners[n] is Any));
        let waiting = Poll::<Result<Seq<T>, E>>::Pending;
        let trace = choose|trace: Seq<PollEvent<F, T, E>>| #[trigger]
            try_joins(start, end, waiting, manners[n], gives, trace);
        lemma_pending_no_failure(start, trace);
        match manners[n] {
            Manner::Slots(lock, _) => lemma_turns_in_order(lock, start, trace),
            _ => lemma_sweep_polls_all(start, trace),
        }
    }
}

/// A number of calls of which only the last one may end the wait do together what one call
/// may do that makes the polls of all of them.
pub proof fn lemma_calls_compose<F, T, E>(
    states: Seq<Seq<Progress<F, T>>>,
    manners: Seq<Manner>,
    gives: Gives<F, T, E>,
    end: Seq<Progress<F, T>>,
    result: Poll<Result<Seq<T>, E>>,
    manner: Manner,
)
    requires
        states.len() > 0,
        forall|k: int|
            0 < k < states.len() ==> try_joined(
                states[k - 1],
                #[trigger] states[k],
                Poll::<Result<Seq<T>, E>>::Pending,
                manners[k],
                gives,
            ),
        try_joined(states.last(), end, result, manner, gives),
    ensures
        exists|any: Manner| #[trigger] try_joined(states[0], end, result, any, gives),
    decreases states.len(),
{
    if states.len() > 1 {
        let n = states.len() - 1;
        let earlier = states.drop_last();
        lemma_try_joined_compose(
            states[n - 1],
            states[n],
            end,
            result,
            manners[n],
            manner,
            gives,
        );
        lemma_calls_compose(earlier, manners, gives, end, result, Manner::Any);
    }
}

/// The outputs of a wait are those of its futures, in the order of the futures, however many
/// calls it takes and in whatever order the futures complete: there is a sequence of polls,
/// recording what the futures have given, in which the output at each position is what
/// polling the future that was given at this position has given.
pub proof fn lemma_wait_gives_outputs<F, T, E>(
    futures: Seq<F>,
    states: Seq<Seq<Progress<F, T>>>,
    manners: Seq<Manner>,
    gives: Gives<F, T, E>,
    end: Seq<Progress<F, T>>,
    outputs: Seq<T>,
    manner: Manner,
)
    requires
        states.len() > 0,
        unstarted(states[0], futures),
        forall|k: int|
            0 < k < states.len() ==> try_joined(
                states[k - 1],
                #[trigger] states[k],
                Poll::<Result<Seq<T>, E>>::Pending,
                manners[k],
                gives,
            ),
        try_joined(states.last(), end, Poll::Ready(Ok::<Seq<T>, E>(outputs)), manner, gives),
    ensures
        outputs.len() == futures.len(),
        exists|trace: Seq<PollEvent<F, T, E>>|
            {
                &&& #[trigger] valid(states[0], trace)
                &&& told(states[0], trace, gives)
                &&& forall|i: int|
                    0 <= i < futures.len() ==> completed_with(
                        states[0],
                        trace,
                        gives,
                        i,
                        #[trigger] outputs[i],
                    )
            },
{
    let result = Poll::Ready(Ok::<Seq<T>, E>(outputs));
    lemma_calls_compose(states, manners, gives, end, result, manner);
    let any = choose|any: Manner| #[trigger] try_joined(states[0], end, result, any, gives);
    let trace = choose|trace: Seq<PollEvent<F, T, E>>| #[trigger]
        try_joins(states[0], end, result, any, gives, trace);
    lemma_outputs_in_order(futures, states[0], trace, gives, outputs);
    assert(valid(states[0], trace));
}

/// Once the wait is over and what it gave was handed out, polling again gives no
/// outputs.
pub proof fn lemma_polled_after_completion<F, T, E>(
    end: Seq<Progress<F, T>>,
    result: Poll<Result<Seq<T>, E>>,
    manner: Manner,
    gives: Gives<F, T, E>,
)
    requires
        try_joined(Seq::<Progress<F, T>>::empty(), end, result, manner, gives),
    ensures
        end == Seq::<Progress<F, T>>::empty(),
        result == Poll::Ready(Ok::<Seq<T>, E>(Seq::empty())),
{
    let start = Seq::<Progress<F, T>>::empty();
    let trace = choose|trace: Seq<PollEvent<F, T, E>>| #[trigger]
        try_joins(start, end, result, manner, gives, trace);
    assert(outputs(start) =~= Seq::empty());
}

} // verus!
