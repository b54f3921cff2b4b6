//! The `TryJoinAll` combinator, waiting for all of a list of futures to finish
//! with either success or error.
use crate::join_all;
use crate::ledger;
use crate::ledger::Note;
use crate::maybe_done;
use crate::maybe_done::{TryFuture, TryMaybeDone};
use crate::progress;
use crate::progress::{Gives, Manner, PollEvent, Progress};
use crate::slot_wakers;
use crate::slot_wakers::{SlotLock, SlotWakers};
use crate::slots::SlotState;
use crate::task;
use crate::task::Pinned;
use std::future::Future;
use std::pin::Pin;
use std::task::{Context, Poll, Waker};
use vstd::prelude::*;
use vstd::std_specs::iter::IteratorSpec;

verus! {

/// What polling each of a few futures once has come to.
pub enum FinalState<E> {
    /// Some futures have not completed.
    Pending,
    /// All futures have succeeded.
    AllDone,
    /// A future has failed with this error.
    Error(E),
}

/// The progress of the futures in `elems`.
pub open spec fn try_state<F: TryFuture>(elems: Seq<TryMaybeDone<F>>) -> Seq<Progress<F, F::Ok>> {
    Seq::new(elems.len(), |i: int| elems[i]@)
}

/// Unwraps the outputs of all futures once they have succeeded.
pub fn take_outputs<F: TryFuture>(elems: &mut Vec<TryMaybeDone<F>>) -> (outputs: Vec<F::Ok>)
    requires
        progress::all_done(try_state(old(elems)@)),
    ensures
        final(elems)@.len() == 0,
        outputs@ == progress::outputs(try_state(old(elems)@)),
{
    let ghost state = try_state(elems@);
    let mut done: Vec<TryMaybeDone<F>> = Vec::new();
    std::mem::swap(elems, &mut done);
    let mut outputs: Vec<F::Ok> = Vec::new();
    for elem in it: done
        invariant
            it.seq() == done@,
            state == try_state(done@),
            progress::all_done(state),
            outputs@ == Seq::new(it.index() as nat, |i: int| state[i]->Done_0),
    {
        assert(state[it.index()] is Done);
        match elem {
            TryMaybeDone::Done(output) => {
                outputs.push(output);
            },
            _ => {},
        }
    }
    outputs
}

/// Whether the polls of `trace` poll each future that has not completed once, in order, until
/// one of them fails, and take the futures from `start` to `end`, so that they come to
/// `state`. The first poll is made with a context of waker `waker`, and the last one leaves
/// one of waker `left`.
pub open spec fn sweeps_to<F, T, E>(
    start: Seq<Progress<F, T>>,
    end: Seq<Progress<F, T>>,
    state: FinalState<E>,
    waker: Waker,
    left: Waker,
    gives: Gives<F, T, E>,
    trace: Seq<PollEvent<F, T, E>>,
) -> bool {
    &&& progress::valid(start, trace)
    &&& progress::told(start, trace, gives)
    &&& progress::in_manner(start, trace, Manner::Sweep(waker, left))
    &&& end == progress::run(start, trace)
    &&& match state {
        FinalState::Error(error) => trace.len() > 0 && trace.last().result == Poll::Ready(
            Err::<T, E>(error),
        ),
        FinalState::AllDone => progress::no_failure(trace) && progress::all_done(end),
        FinalState::Pending => progress::no_failure(trace) && !progress::all_done(end),
    }
}

/// Whether polling each future that has not completed once, in order, until one of them
/// fails, can have taken the futures from `start` to `end`, so that they come to `state`.
pub open spec fn swept<F, T, E>(
    start: Seq<Progress<F, T>>,
    end: Seq<Progress<F, T>>,
    state: FinalState<E>,
    waker: Waker,
    left: Waker,
    gives: Gives<F, T, E>,
) -> bool {
    exists|trace: Seq<PollEvent<F, T, E>>| #[trigger]
        sweeps_to(start, end, state, waker, left, gives, trace)
}

/// Polls each future that has not completed, until one of them fails.
pub fn sweep<F: TryFuture>(elems: &mut Vec<TryMaybeDone<F>>, cx: &mut Context<'_>) -> (state:
    FinalState<F::Error>)
    requires
        progress::none_gone(try_state(old(elems)@)),
        progress::all_live(try_state(old(elems)@)),
    ensures
        final(elems).len() == old(elems).len(),
        swept(
            try_state(old(elems)@),
            try_state(final(elems)@),
            state,
            task::context_waker(*old(cx)),
            task::context_waker(*final(cx)),
            maybe_done::try_giving::<F>(),
        ),
{
    let ghost start = try_state(elems@);
    let ghost gives = maybe_done::try_giving::<F>();
    let ghost mut trace: Seq<PollEvent<F, F::Ok, F::Error>> = Seq::empty();
    let mut state: FinalState<F::Error> = FinalState::AllDone;
    let mut i: usize = 0;
    while i < elems.len()
        invariant_except_break
            progress::none_gone(start),
            progress::all_live(start),
            i <= elems.len(),
            state !is Error,
            state is AllDone ==> forall|j: int| 0 <= j < i ==> #[trigger] elems@[j]@ is Done,
            state is Pending ==> exists|j: int| 0 <= j < i && #[trigger] elems@[j]@ !is Done,
            forall|j: int| i <= j < start.len() ==> #[trigger] elems@[j]@ == start[j],
            forall|k: int| 0 <= k < trace.len() ==> (#[trigger] trace[k]).index < i,
            forall|j: int|
                0 <= j < i && #[trigger] start[j] is Pending ==> exists|k: int|
                    0 <= k < trace.len() && (#[trigger] trace[k]).index == j,
            progress::no_failure(trace),
            progress::none_gone(try_state(elems@)),
        invariant
            start == try_state(old(elems)@),
            elems.len() == start.len(),
            gives == maybe_done::try_giving::<F>(),
            progress::valid(start, trace),
            progress::told(start, trace, gives),
            try_state(elems@) == progress::run(start, trace),
            progress::passed_on(
                trace,
                task::context_waker(*old(cx)),
                task::context_waker(*cx),
            ),
            forall|j: int, k: int|
                0 <= j < k < trace.len() ==> (#[trigger] trace[j]).index < (#[trigger] trace[k]).index,
        ensures
            match state {
                FinalState::Error(error) => {
                    &&& trace.len() > 0
                    &&& trace.last().result == Poll::Ready(Err::<F::Ok, F::Error>(error))
                },
                FinalState::AllDone => {
                    &&& progress::no_failure(trace)
                    &&& forall|j: int| 0 <= j < elems.len() ==> #[trigger] elems@[j]@ is Done
                },
                FinalState::Pending => {
                    &&& progress::no_failure(trace)
                    &&& exists|j: int| 0 <= j < elems.len() && #[trigger] elems@[j]@ !is Done
                    &&& progress::none_gone(try_state(elems@))
                },
            },
            progress::sweeps(start, trace),
        decreases elems.len() - i,
    {
        let ghost before = try_state(elems@);
        let ghost held = elems@;
        let ghost earlier = trace;
        let ghost waker = task::context_waker(*cx);
        let signal: Poll<Result<(), F::Error>> = elems[i].try_poll(cx);
        proof {
            let after = elems@[i as int]@;
            assert(try_state(elems@) =~= before.update(i as int, after));
            if start[i as int] is Pending {
                let event = PollEvent {
                    index: i as int,
                    waker,
                    left: task::context_waker(*cx),
                    moved: after->Pending_0.pointer,
                    result: progress::returned(after, signal),
                };
                progress::lemma_run_step(start, trace, event);
                progress::lemma_told_step(start, trace, event, gives);
                trace = trace.push(event);
                assert forall|j: int| 0 <= j < i + 1 && #[trigger] start[j] is Pending implies exists|
                    k: int,
                |
                    0 <= k < trace.len() && (#[trigger] trace[k]).index == j by {
                    if j < i {
                        let k = choose|k: int|
                            0 <= k < earlier.len() && (#[trigger] earlier[k]).index == j;
                        assert(trace[k].index == j);
                    }
                }
            }
            assert forall|j: int|
                #![trigger elems@[j]@]
                #![trigger held[j]@]
                0 <= j < start.len() && j != i implies elems@[j]@ == held[j]@ by {}
        }
        match signal {
            Poll::Pending => {
                state = FinalState::Pending;
            },
            Poll::Ready(Ok(())) => {},
            Poll::Ready(Err(error)) => {
                state = FinalState::Error(error);
                break ;
            },
        }
        i = i + 1;
    }
    proof {
        let now = try_state(elems@);
        if state is Pending {
            let j = choose|j: int| 0 <= j < elems.len() && #[trigger] elems@[j]@ !is Done;
            assert(now[j] !is Done);
        }
        assert(sweeps_to(
            start,
            now,
            state,
            task::context_waker(*old(cx)),
            task::context_waker(*cx),
            gives,
            trace,
        ));
    }
    state
}

/// Whether polling each of these futures that has not completed once, in order, until one of
/// them has failed with `error`, has led to what `held` holds, and all of it was dropped.
pub open spec fn cancels<F: TryFuture>(
    start: Seq<Progress<F, F::Ok>>,
    error: F::Error,
    waker: Waker,
    left: Waker,
    held: Vec<TryMaybeDone<F>>,
    trace: Seq<PollEvent<F, F::Ok, F::Error>>,
) -> bool {
    &&& task::dropped(held)
    &&& sweeps_to(
        start,
        try_state(held@),
        FinalState::Error(error),
        waker,
        left,
        maybe_done::try_giving::<F>(),
        trace,
    )
}

/// Whether one of these futures has failed with `error` when each that had not completed was
/// polled once, in order, and all futures and outputs that were held then were dropped.
pub open spec fn cancelled<F: TryFuture>(
    start: Seq<Progress<F, F::Ok>>,
    error: F::Error,
    waker: Waker,
    left: Waker,
) -> bool {
    exists|held: Vec<TryMaybeDone<F>>, trace: Seq<PollEvent<F, F::Ok, F::Error>>| #[trigger]
        cancels(start, error, waker, left, held, trace)
}

/// Polls each future that has not completed, until one of them fails. Once all
/// futures have succeeded, hands out their outputs. When one of them has failed,
/// drops all of them and returns its error. What the polls do to the
/// futures before they are dropped is stated by [`sweep`].
pub fn poll_small<F: TryFuture>(elems: &mut Vec<TryMaybeDone<F>>, cx: &mut Context<'_>) -> (result:
    Poll<Result<Vec<F::Ok>, F::Error>>)
    requires
        progress::none_gone(try_state(old(elems)@)),
        progress::all_live(try_state(old(elems)@)),
    ensures
        progress::none_gone(try_state(final(elems)@)),
        progress::all_live(try_state(final(elems)@)),
        progress::try_joined(
            try_state(old(elems)@),
            try_state(final(elems)@),
            progress::try_viewed(result),
            Manner::Sweep(task::context_waker(*old(cx)), task::context_waker(*final(cx))),
            maybe_done::try_giving::<F>(),
        ),
        result matches Poll::Ready(Err(error)) ==> cancelled(
            try_state(old(elems)@),
            error,
            task::context_waker(*old(cx)),
            task::context_waker(*final(cx)),
        ),
{
    let ghost start = try_state(elems@);
    let ghost gives = maybe_done::try_giving::<F>();
    let ghost waker = task::context_waker(*cx);
    let state: FinalState<F::Error> = sweep(elems, cx);
    proof {
        let now = try_state(elems@);
        let left = task::context_waker(*cx);
        let trace = choose|trace: Seq<PollEvent<F, F::Ok, F::Error>>| #[trigger]
            sweeps_to(start, now, state, waker, left, gives, trace);
        if progress::no_failure(trace) {
            progress::lemma_sweep_takes_up(start, trace);
            progress::lemma_none_gone(start, trace);
        }
        if state !is Error && trace.len() > 0 {
            assert(!progress::failed(trace[trace.len() - 1].result));
        }
        progress::lemma_all_live(start, trace);
        progress::lemma_try_joined_by(start, trace, Manner::Sweep(waker, left), gives);
    }

    match state {
        FinalState::Pending => Poll::Pending,
        FinalState::AllDone => {
            let outputs: Vec<F::Ok> = take_outputs(elems);
            assert(try_state(elems@) =~= Seq::empty());
            Poll::Ready(Ok(outputs))
        },
        FinalState::Error(error) => {
            let mut held: Vec<TryMaybeDone<F>> = Vec::new();
            std::mem::swap(elems, &mut held);
            let ghost failed = error;
            task::discard(held);
            proof {
                let left = task::context_waker(*cx);
                let trace = choose|trace: Seq<PollEvent<F, F::Ok, F::Error>>| #[trigger]
                    sweeps_to(
                        start,
                        try_state(held@),
                        FinalState::Error(failed),
                        waker,
                        left,
                        gives,
                        trace,
                    );
                assert(cancels(start, failed, waker, left, held, trace));
            }
            assert(try_state(elems@) =~= Seq::empty());
            Poll::Ready(Err(error))
        },
    }
}

/// Whether `held` holds, of the futures that waited in `start`, each that has not completed
/// since, as well as what became of the others: an output, or nothing of one that has failed.
pub open spec fn holds<F: TryFuture>(
    start: Seq<Progress<F, F::Ok>>,
    held: Seq<TryMaybeDone<F>>,
) -> bool {
    &&& held.len() == start.len()
    &&& forall|i: int|
        0 <= i < start.len() ==> match start[i] {
            Progress::Pending(waiting) => {
                ||| #[trigger] held[i] matches TryMaybeDone::Future(future) && future@.future
                    == waiting.future
                ||| held[i] is Done
                ||| held[i] is Gone
            },
            Progress::Done(output) => held[i] == TryMaybeDone::<F>::Done(output),
            Progress::Gone => held[i] is Gone,
        }
}

/// What polls have made of futures that waited is held.
proof fn lemma_holds<F: TryFuture>(
    start: Seq<Progress<F, F::Ok>>,
    held: Seq<TryMaybeDone<F>>,
    trace: Seq<PollEvent<F, F::Ok, F::Error>>,
)
    requires
        progress::valid(start, trace),
        try_state(held) == progress::run(start, trace),
    ensures
        holds(start, held),
{
    progress::lemma_run_len(start, trace);
    assert(held.len() == try_state(held).len());
    assert forall|i: int| 0 <= i < start.len() implies match start[i] {
        Progress::Pending(waiting) => {
            ||| #[trigger] held[i] matches TryMaybeDone::Future(future) && future@.future
                == waiting.future
            ||| held[i] is Done
            ||| held[i] is Gone
        },
        Progress::Done(output) => held[i] == TryMaybeDone::<F>::Done(output),
        Progress::Gone => held[i] is Gone,
    } by {
        assert(try_state(held)[i] == held[i]@);
        if held[i] is Future {
            progress::lemma_pending_stays(start, trace, i);
        }
        if start[i] !is Pending {
            lemma_settled_stays(start, trace, i);
        }
    }
}

/// What has become of a future that has completed stays.
proof fn lemma_settled_stays<F, T, E>(
    start: Seq<Progress<F, T>>,
    trace: Seq<PollEvent<F, T, E>>,
    i: int,
)
    requires
        progress::valid(start, trace),
        0 <= i < start.len(),
        start[i] !is Pending,
    ensures
        progress::run(start, trace)[i] == start[i],
    decreases trace.len(),
{
    if trace.len() > 0 {
        progress::lemma_run_len(start, trace.drop_last());
        lemma_settled_stays(start, trace.drop_last(), i);
    }
}

/// If one of a few futures fails, all others are cancelled: by the time the error is
/// returned, all futures that have not completed were dropped, with all outputs. Those behind
/// the one that has failed were not even polled.
pub proof fn lemma_others_cancelled<F: TryFuture>(
    start: Seq<Progress<F, F::Ok>>,
    error: F::Error,
    waker: Waker,
    left: Waker,
)
    requires
        cancelled::<F>(start, error, waker, left),
    ensures
        exists|held: Vec<TryMaybeDone<F>>, failed: int|
            {
                &&& #[trigger] task::dropped(held)
                &&& holds(start, held@)
                &&& 0 <= failed < start.len()
                &&& start[failed] is Pending
                &&& #[trigger] held@[failed] is Gone
                &&& forall|i: int|
                    failed < i < start.len() ==> (#[trigger] held@[i])@ == start[i]
                &&& forall|i: int|
                    0 <= i < failed ==> (#[trigger] held@[i] is Gone ==> start[i] is Gone)
            },
{
    let (held, trace) = choose|
        held: Vec<TryMaybeDone<F>>,
        trace: Seq<PollEvent<F, F::Ok, F::Error>>,
    | #[trigger]
        cancels(start, error, waker, left, held, trace);
    lemma_holds(start, held@, trace);
    let end = progress::run(start, trace);
    let earlier = trace.drop_last();
    let failed = trace.last().index;
    progress::lemma_run_len(start, trace);
    progress::lemma_run_len(start, earlier);
    progress::lemma_pending_stays(start, earlier, failed);
    assert(try_state(held@)[failed] == held@[failed]@);
    assert forall|i: int| failed < i < start.len() implies (#[trigger] held@[i])@ == start[i] by {
        assert(try_state(held@)[i] == held@[i]@);
        assert forall|k: int| 0 <= k < trace.len() implies (#[trigger] trace[k]).index != i by {
            assert(k == trace.len() - 1 || trace[k].index < trace[trace.len() - 1].index);
        }
        progress::lemma_times_none(trace, i);
        progress::lemma_polled_differs(start, trace, i);
    }
    assert forall|i: int| 0 <= i < failed && #[trigger] held@[i] is Gone implies start[i]
        is Gone by {
        assert(try_state(held@)[i] == held@[i]@);
        lemma_gone_by_failure(start, earlier, i);
    }
    assert(task::dropped(held));
}

/// Where no poll has failed, what is gone was so before.
proof fn lemma_gone_by_failure<F, T, E>(
    start: Seq<Progress<F, T>>,
    trace: Seq<PollEvent<F, T, E>>,
    i: int,
)
    requires
        progress::valid(start, trace),
        progress::no_failure(trace),
        0 <= i < start.len(),
        progress::run(start, trace)[i] is Gone,
    ensures
        start[i] is Gone,
    decreases trace.len(),
{
    if trace.len() > 0 {
        let earlier = trace.drop_last();
        progress::lemma_run_len(start, earlier);
        assert forall|k: int| 0 <= k < earlier.len() implies !progress::failed(
            #[trigger] earlier[k].result,
        ) by {
            assert(!progress::failed(trace[k].result));
        }
        assert(!progress::failed(trace[trace.len() - 1].result));
        lemma_gone_by_failure(start, earlier, i);
    }
}

/// If one of many futures fails, all others are cancelled: by the time the error is returned,
/// all futures that have not completed were dropped, with all outputs, and so was the waker of
/// the task.
pub proof fn lemma_many_others_cancelled<F: TryFuture>(
    lock: SlotLock,
    waker: Waker,
    start: Seq<Progress<F, F::Ok>>,
    error: F::Error,
    log: Seq<Note>,
)
    requires
        book_closed::<F>(lock, waker, start, Poll::Ready(Err(error)), log),
    ensures
        exists|held: Vec<TryMaybeDone<F>>, state: SlotState<Waker>|
            {
                &&& #[trigger] task::dropped(held)
                &&& holds(start, held@)
                &&& #[trigger] slot_wakers::exchanged(lock, state, state.closed())
                &&& task::dropped(state.parent)
            },
{
    let result = Poll::Ready(Err::<Seq<F::Ok>, F::Error>(error));
    let (notes, trace, wakers, held) = choose|
        notes: Seq<Note>,
        trace: Seq<PollEvent<F, F::Ok, F::Error>>,
        wakers: SlotWakers,
        held: Vec<TryMaybeDone<F>>,
    | #[trigger]
        closes_book(lock, waker, start, result, log, notes, trace, wakers, held);
    lemma_holds(start, held@, trace);
    assert(task::dropped(held));
}

/// Whether waiting for many futures, whose slots stand behind `lock`, in one call that is
/// made with `waker`, takes them from `start` to `end` and gives `result`. The futures from
/// position `from` on were never polled. The polls are those of `trace`, and `middle` is
/// what they lead to.
pub open spec fn runs_many<F, T, E>(
    lock: SlotLock,
    waker: Waker,
    start: Seq<Progress<F, T>>,
    end: Seq<Progress<F, T>>,
    result: Poll<Result<Seq<T>, E>>,
    gives: Gives<F, T, E>,
    from: int,
    middle: Seq<Progress<F, T>>,
    trace: Seq<PollEvent<F, T, E>>,
    thens: Seq<SlotState<Waker>>,
) -> bool {
    &&& forall|i: int|
        0 <= i < start.len() ==> (progress::fresh(#[trigger] start[i]) <==> from <= i)
    &&& slot_wakers::runs(
        lock,
        waker,
        start,
        middle,
        from,
        progress::pending_count(start),
        progress::signal(result),
        gives,
        trace,
        thens,
    )
    &&& progress::try_joins(start, end, result, Manner::Slots(lock, waker), gives, trace)
}

/// Whether waiting for many futures, whose slots stand behind `lock`, in one call that is
/// made with `waker`, can have taken them from `start` to `end` and given `result`.
pub open spec fn ran_many<F, T, E>(
    lock: SlotLock,
    waker: Waker,
    start: Seq<Progress<F, T>>,
    end: Seq<Progress<F, T>>,
    result: Poll<Result<Seq<T>, E>>,
    gives: Gives<F, T, E>,
) -> bool {
    exists|
        from: int,
        middle: Seq<Progress<F, T>>,
        trace: Seq<PollEvent<F, T, E>>,
        thens: Seq<SlotState<Waker>>,
    | #[trigger]
        runs_many(lock, waker, start, end, result, gives, from, middle, trace, thens)
}

/// Whether waiting for many futures in one call, which ends the wait and gives `result`, has
/// done what `notes` are of, and then has removed and dropped the waker of the task, and has
/// dropped `wakers` and what was held of the futures and outputs, which is in `held` if a
/// future has failed, and nothing else. What was done before the call is what `log` is of.
pub open spec fn closes_book<F: TryFuture>(
    lock: SlotLock,
    waker: Waker,
    start: Seq<Progress<F, F::Ok>>,
    result: Poll<Result<Seq<F::Ok>, F::Error>>,
    log: Seq<Note>,
    notes: Seq<Note>,
    trace: Seq<PollEvent<F, F::Ok, F::Error>>,
    wakers: SlotWakers,
    held: Vec<TryMaybeDone<F>>,
) -> bool {
    &&& exists|from: int, to: int| #[trigger]
        ledger::keeps_book(
            lock,
            waker,
            start,
            Seq::empty(),
            result,
            maybe_done::try_giving::<F>(),
            notes,
            trace,
            false,
            from,
            to,
        )
    &&& slot_wakers::closes(lock, log + notes, wakers.log())
    &&& wakers.lock() == lock
    &&& task::dropped(wakers)
    &&& result matches Poll::Ready(Err(_)) ==> task::dropped(held) && try_state(held@)
        == progress::run(start, trace)
}

/// Whether waiting for many futures in one call, which ends the wait and gives `result`, has
/// done nothing but what is to be done, and then has removed and dropped the waker of the
/// task and has dropped the wakers and, if a future has failed, all futures and outputs.
pub open spec fn book_closed<F: TryFuture>(
    lock: SlotLock,
    waker: Waker,
    start: Seq<Progress<F, F::Ok>>,
    result: Poll<Result<Seq<F::Ok>, F::Error>>,
    log: Seq<Note>,
) -> bool {
    exists|
        notes: Seq<Note>,
        trace: Seq<PollEvent<F, F::Ok, F::Error>>,
        wakers: SlotWakers,
        held: Vec<TryMaybeDone<F>>,
    | #[trigger]
        closes_book(lock, waker, start, result, log, notes, trace, wakers, held)
}

/// Future for the [`try_join_all`] function.
#[must_use]
#[verifier::reject_recursive_types(F)]
pub struct TryJoinAll<F: TryFuture> {
    elems: Vec<TryMaybeDone<F>>,
    /// Wakers which record the futures that were woken, so that only those are
    /// polled. `None` if there are at most `SMALL` futures, which are all polled
    /// whenever `TryJoinAll` is polled.
    wakers: Option<SlotWakers>,
}

impl<F: TryFuture> View for TryJoinAll<F> {
    type V = Seq<Progress<F, F::Ok>>;

    /// The progress of the futures, in the order in which they were given.
    closed spec fn view(&self) -> Seq<Progress<F, F::Ok>> {
        try_state(self.elems@)
    }
}

impl<F: TryFuture> TryJoinAll<F> {
    #[verifier::type_invariant]
    spec fn inv(self) -> bool {
        &&& progress::none_gone(try_state(self.elems@))
        &&& progress::all_live(try_state(self.elems@))
        &&& self.wakers matches Some(wakers) ==> {
            &&& wakers.wf()
            &&& wakers.len() == self.elems@.len() < usize::MAX
            &&& wakers.remaining() == progress::pending_count(
                slot_wakers::progress_of(self.elems@),
            )
            &&& forall|i: int|
                0 <= i < self.elems@.len() ==> (progress::fresh(#[trigger] self.elems@[i]@)
                    <==> wakers.unpolled() <= i)
        }
    }

    /// Whether all futures that have not completed are polled whenever this is
    /// polled, rather than those that were woken.
    pub closed spec fn is_small(&self) -> bool {
        self.wakers is None
    }

    /// The slots of many futures.
    pub closed spec fn lock(&self) -> SlotLock {
        self.wakers->0.lock()
    }

    /// What was done to the slots of many futures, other than by their wakers, and to the
    /// futures, one after the other.
    pub closed spec fn log(&self) -> Seq<Note> {
        self.wakers->0.log()
    }

    /// How a poll with a context of waker `waker`, which has left one of waker `left`, polls
    /// the futures.
    pub open spec fn manner(&self, waker: Waker, left: Waker) -> Manner {
        if self.is_small() {
            Manner::Sweep(waker, left)
        } else {
            Manner::Slots(self.lock(), waker)
        }
    }

    /// Polls the futures, and hands out their outputs once all of them have
    /// succeeded. If one of them fails, all other futures are dropped, and its
    /// error is returned.
    ///
    /// The contract does not say that the task is woken no more often than it is to be. What
    /// the polls do to the futures before they are dropped is stated by [`sweep`] and
    /// [`SlotWakers::poll`].
    pub fn poll(&mut self, cx: &mut Context<'_>) -> (result: Poll<Result<Vec<F::Ok>, F::Error>>)
        ensures
            progress::try_joined(
                old(self)@,
                final(self)@,
                progress::try_viewed(result),
                old(self).manner(task::context_waker(*old(cx)), task::context_waker(*final(cx))),
                maybe_done::try_giving::<F>(),
            ),
            !old(self).is_small() ==> {
                &&& *final(cx) == *old(cx)
                &&& ran_many(
                    old(self).lock(),
                    task::context_waker(*old(cx)),
                    old(self)@,
                    final(self)@,
                    progress::try_viewed(result),
                    maybe_done::try_giving::<F>(),
                )
                &&& result is Pending ==> final(self).lock() == old(self).lock()
                &&& result is Ready ==> slot_wakers::closed_off(old(self).lock())
            },
            result is Pending ==> final(self).is_small() == old(self).is_small(),
            old(self).is_small() ==> (result matches Poll::Ready(Err(error)) ==> cancelled(
                old(self)@,
                error,
                task::context_waker(*old(cx)),
                task::context_waker(*final(cx)),
            )),
            !old(self).is_small() ==> match result {
                Poll::Pending => {
                    &&& final(self).log() == old(self).log() + ledger::added(
                        old(self).log(),
                        final(self).log(),
                    )
                    &&& ledger::book_kept(
                        old(self).lock(),
                        task::context_waker(*old(cx)),
                        old(self)@,
                        final(self)@,
                        progress::try_viewed(result),
                        maybe_done::try_giving::<F>(),
                        ledger::added(old(self).log(), final(self).log()),
                    )
                },
                Poll::Ready(_) => book_closed(
                    old(self).lock(),
                    task::context_waker(*old(cx)),
                    old(self)@,
                    progress::try_viewed(result),
                    old(self).log(),
                ),
            },
    {
        proof {
            use_type_invariant(&*self);
        }
        let mut taken: TryJoinAll<F> = TryJoinAll { elems: Vec::new(), wakers: None };
        std::mem::swap(self, &mut taken);
        let TryJoinAll { mut elems, wakers } = taken;
        match wakers {
            Some(mut wakers) => {
                let ghost start = slot_wakers::progress_of(elems@);
                let ghost limit = wakers.remaining();
                let ghost from = wakers.unpolled();
                let ghost log = wakers.log();
                assert(start =~= try_state(elems@));
                let signal: Poll<Result<(), F::Error>> = wakers.poll(&mut elems, cx);
                let ghost end = slot_wakers::progress_of(elems@);
                let ghost waker = task::context_waker(*cx);
                let ghost lock = wakers.lock();
                let ghost seen = signal;
                let ghost gives = maybe_done::try_giving::<F>();
                assert(maybe_done::giving::<TryMaybeDone<F>>() =~= gives);
                let ghost to = wakers.unpolled() as int;
                let ghost notes = ledger::added(log, wakers.log());
                let ghost (trace, thens) = choose|
                    trace: Seq<PollEvent<F, F::Ok, F::Error>>,
                    thens: Seq<SlotState<Waker>>,
                |
                    {
                        &&& #[trigger] slot_wakers::runs(
                            lock,
                            waker,
                            start,
                            end,
                            from as int,
                            limit,
                            seen,
                            gives,
                            trace,
                            thens,
                        )
                        &&& ledger::kept(
                            lock,
                            waker,
                            notes,
                            ledger::turns_of(trace),
                            progress::pending_of(end),
                            slot_wakers::leaves_idle(limit, seen, trace, thens),
                            from as int,
                            to,
                        )
                    };
                let ghost idle = slot_wakers::leaves_idle(limit, seen, trace, thens);
                proof {
                    assert(end =~= try_state(elems@));
                    slot_wakers::lemma_runs_in_turn(
                        lock,
                        waker,
                        start,
                        end,
                        from as int,
                        limit,
                        seen,
                        gives,
                        trace,
                        thens,
                    );
                    let manner = Manner::Slots(lock, waker);
                    progress::lemma_went_on(
                        start,
                        end,
                        seen,
                        limit,
                        manner,
                        from,
                        wakers.unpolled(),
                    );
                    assert forall|i: int| 0 <= i < elems@.len() implies #[trigger] elems@[i]@
                        == end[i] by {}
                    progress::lemma_all_live(start, trace);
                    progress::lemma_advances_joins(
                        start,
                        end,
                        seen,
                        limit,
                        manner,
                        gives,
                        trace,
                    );
                    assert(try_state(self.elems@) =~= Seq::empty());
                    let result: Poll<Result<Seq<F::Ok>, F::Error>> = match seen {
                        Poll::Pending => Poll::Pending,
                        Poll::Ready(Ok(_)) => Poll::Ready(Ok(progress::outputs(end))),
                        Poll::Ready(Err(error)) => Poll::Ready(Err(error)),
                    };
                    let left: Seq<Progress<F, F::Ok>> = if seen is Pending {
                        end
                    } else {
                        Seq::empty()
                    };
                    assert(ledger::keeps_book(
                        lock,
                        waker,
                        start,
                        left,
                        result,
                        gives,
                        notes,
                        trace,
                        idle,
                        from as int,
                        to,
                    ));
                    assert(runs_many(
                        lock,
                        waker,
                        start,
                        left,
                        result,
                        gives,
                        from as int,
                        end,
                        trace,
                        thens,
                    ));
                }
                match signal {
                    Poll::Pending => {
                        *self = TryJoinAll { elems, wakers: Some(wakers) };
                        Poll::Pending
                    },
                    Poll::Ready(Ok(())) => {
                        let outputs: Vec<F::Ok> = take_outputs(&mut elems);
                        wakers.close();
                        task::discard(wakers);
                        assert(closes_book(
                            lock,
                            waker,
                            start,
                            Poll::Ready(Ok(outputs@)),
                            log,
                            notes,
                            trace,
                            wakers,
                            elems,
                        ));
                        Poll::Ready(Ok(outputs))
                    },
                    Poll::Ready(Err(error)) => {
                        wakers.close();
                        task::discard(wakers);
                        task::discard(elems);
                        assert(closes_book(
                            lock,
                            waker,
                            start,
                            Poll::Ready(Err(error)),
                            log,
                            notes,
                            trace,
                            wakers,
                            elems,
                        ));
                        Poll::Ready(Err(error))
                    },
                }
            },
            None => {
                let result: Poll<Result<Vec<F::Ok>, F::Error>> = poll_small(&mut elems, cx);
                *self = TryJoinAll { elems, wakers: None };
                result
            },
        }
    }

    /// Creates a future which represents either a collection of the results of
    /// the futures yielded by `iter` or an error.
    pub fn from_iter<I: Iterator<Item = F>>(iter: I) -> (joined: Self)
        ensures
            iter.obeys_prophetic_iter_laws() ==> {
                &&& progress::unstarted(joined@, iter.remaining())
                &&& joined.is_small() <==> !(join_all::SMALL < iter.remaining().len() < usize::MAX)
            },
            progress::none_started(joined@),
            joined.is_small() <==> !(join_all::SMALL < joined@.len() < usize::MAX),
            !joined.is_small() ==> slot_wakers::begins(
                joined.lock(),
                SlotState::initial(joined@.len() as int),
            ),
            !joined.is_small() ==> joined.log() == Seq::<Note>::empty(),
    {
        try_join_all(iter)
    }

    /// The futures, and the outputs of those that have succeeded.
    pub fn elems(&self) -> (elems: &Vec<TryMaybeDone<F>>)
        ensures
            try_state(elems@) == self@,
    {
        &self.elems
    }

    /// Drops the waker of the task that polls this. Wakers of the futures can
    /// outlive `self`, and then don't wake a task that no longer polls it.
    pub fn close(&mut self)
        ensures
            final(self)@ == old(self)@,
            final(self).is_small() == old(self).is_small(),
            !old(self).is_small() ==> {
                &&& final(self).lock() == old(self).lock()
                &&& slot_wakers::closed_off(old(self).lock())
                &&& slot_wakers::closes(old(self).lock(), old(self).log(), final(self).log())
            },
    {
        proof {
            use_type_invariant(&*self);
        }
        let mut taken: TryJoinAll<F> = TryJoinAll { elems: Vec::new(), wakers: None };
        std::mem::swap(self, &mut taken);
        let TryJoinAll { elems, mut wakers } = taken;
        if let Some(wakers) = &mut wakers {
            wakers.close();
        }
        *self = TryJoinAll { elems, wakers };
    }
}

/// Creates a future which represents either a collection of the results of the
/// futures given or an error.
///
/// The returned future will drive execution for all of its underlying futures,
/// collecting the results into a destination `Vec<T>` in the same order as they
/// were provided.
///
/// If any future returns an error then all other futures will be canceled and an
/// error will be returned immediately. If all futures complete successfully,
/// however, then the returned future will succeed with a `Vec` of all the
/// successful results.
///
/// When there are many futures, only the ones that have been woken are polled.
pub fn try_join_all<I>(iter: I) -> (joined: TryJoinAll<I::Item>) where
    I: Iterator,
    I::Item: TryFuture,

    ensures
        iter.obeys_prophetic_iter_laws() ==> {
            &&& progress::unstarted(joined@, iter.remaining())
            &&& joined.is_small() <==> !(join_all::SMALL < iter.remaining().len() < usize::MAX)
        },
        progress::none_started(joined@),
        joined.is_small() <==> !(join_all::SMALL < joined@.len() < usize::MAX),
        !joined.is_small() ==> slot_wakers::begins(
            joined.lock(),
            SlotState::initial(joined@.len() as int),
        ),
        !joined.is_small() ==> joined.log() == Seq::<Note>::empty(),
{
    let futures: Vec<I::Item> = task::collect(iter);
    let mut elems: Vec<TryMaybeDone<I::Item>> = Vec::new();
    for future in it: futures
        invariant
            it.seq() == futures@,
            elems.len() == it.index(),
            forall|i: int|
                0 <= i < elems.len() ==> progress::begins_with(
                    #[trigger] elems@[i]@,
                    futures@[i],
                ),
    {
        elems.push(TryMaybeDone::Future(Pinned::new(future)));
    }
    proof {
        let state = slot_wakers::progress_of(elems@);
        assert(state =~= try_state(elems@));
        assert forall|i: int| 0 <= i < state.len() implies progress::begins_with(
            #[trigger] state[i],
            futures@[i],
        ) by {
            assert(state[i] == elems@[i]@);
        }
        progress::lemma_pending_count_unstarted(state);
    }
    let wakers: Option<SlotWakers> = join_all::slot_wakers(elems.len());
    TryJoinAll { elems, wakers }
}

impl<F: TryFuture> Unpin for TryJoinAll<F> {

}

impl<F: TryFuture> Future for TryJoinAll<F> {
    type Output = Result<Vec<F::Ok>, F::Error>;

    fn poll(self: Pin<&mut Self>, cx: &mut Context<'_>) -> (result: Poll<
        Result<Vec<F::Ok>, F::Error>,
    >)
        ensures
            exists|target: &mut Self|
                {
                    &&& #[trigger] task::points_to(self, target)
                    &&& progress::try_joined(
                        target@,
                        final(target)@,
                        progress::try_viewed(result),
                        target.manner(
                            task::context_waker(*old(cx)),
                            task::context_waker(*final(cx)),
                        ),
                        maybe_done::try_giving::<F>(),
                    )
                    &&& !target.is_small() ==> {
                        &&& *final(cx) == *old(cx)
                        &&& ran_many(
                            target.lock(),
                            task::context_waker(*old(cx)),
                            target@,
                            final(target)@,
                            progress::try_viewed(result),
                            maybe_done::try_giving::<F>(),
                        )
                        &&& result is Pending ==> final(target).lock() == target.lock()
                        &&& result is Ready ==> slot_wakers::closed_off(target.lock())
                    }
                    &&& result is Pending ==> final(target).is_small() == target.is_small()
                    &&& target.is_small() ==> (result matches Poll::Ready(Err(error)) ==> cancelled(
                        target@,
                        error,
                        task::context_waker(*old(cx)),
                        task::context_waker(*final(cx)),
                    ))
                    &&& !target.is_small() ==> match result {
                        Poll::Pending => {
                            &&& final(target).log() == target.log() + ledger::added(
                                target.log(),
                                final(target).log(),
                            )
                            &&& ledger::book_kept(
                                target.lock(),
                                task::context_waker(*old(cx)),
                                target@,
                                final(target)@,
                                progress::try_viewed(result),
                                maybe_done::try_giving::<F>(),
                                ledger::added(target.log(), final(target).log()),
                            )
                        },
                        Poll::Ready(_) => book_closed(
                            target.lock(),
                            task::context_waker(*old(cx)),
                            target@,
                            progress::try_viewed(result),
                            target.log(),
                        ),
                    }
                },
    {
        task::unpin(self).poll(cx)
    }
}

} // verus!
