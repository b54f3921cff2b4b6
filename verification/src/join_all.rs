//! The `JoinAll` combinator, waiting for all of a list of futures to finish.
use crate::futures_unordered;
use crate::futures_unordered::{FuturesUnordered, OrderWrapper};
use crate::ledger;
use crate::ledger::Note;
use crate::maybe_done::MaybeDone;
use crate::progress;
use crate::progress::{Gives, Manner, PollEvent, Progress};
use crate::slot_wakers;
use crate::slot_wakers::{SlotLock, SlotWakers};
use crate::slots::SlotState;
use crate::task;
use crate::task::Pinned;
use std::future::Future;
use std::pin::Pin;
use std::task::{Context, Poll, Waker};
use vstd::prelude::*;
use vstd::std_specs::iter::IteratorSpec;

verus! {

/// The largest number of futures that are all polled whenever a combinator is
/// polled.
pub const SMALL: usize = 30;

/// The wakers for `len` futures if only those that were woken are to be polled.
pub fn slot_wakers(len: usize) -> (wakers: Option<SlotWakers>)
    ensures
        wakers is Some <==> SMALL < len < usize::MAX,
        wakers matches Some(wakers) ==> wakers.wf() && wakers.len() == len && wakers.unpolled() == 0
            && wakers.remaining() == len && slot_wakers::begins(
            wakers.lock(),
            SlotState::initial(len as int),
        ) && wakers.log() == Seq::<Note>::empty(),
{
    if SMALL < len && len < usize::MAX {
        Some(SlotWakers::new(len))
    } else {
        None
    }
}

/// The futures of a combinator, collected into the representation that is
/// appropriate for their number.
#[verifier::reject_recursive_types(W)]
#[verifier::reject_recursive_types(F)]
pub enum Collected<W, F: Future> {
    Small(Vec<W>),
    Big(FuturesUnordered<F>),
}

/// Whether `len` futures, of which the iterator has given these bounds on their
/// number, are collected into a set.
pub open spec fn collected_big(hint: (usize, Option<usize>), len: nat) -> bool {
    let at_most_small = hint.1 matches Some(max) && max <= SMALL;
    !at_most_small && (hint.0 > SMALL || len > SMALL) && len < usize::MAX
}

/// Whether `collected` holds the futures `items`, each of them wrapped with
/// `wrap` or tagged with its position.
pub open spec fn collects<W, F: Future, G: Fn(F) -> W>(
    collected: Collected<W, F>,
    items: Seq<F>,
    wrap: G,
) -> bool {
    match collected {
        Collected::Small(elems) => {
            &&& elems@.len() == items.len()
            &&& forall|i: int|
                0 <= i < items.len() ==> call_ensures(wrap, (items[i],), #[trigger] elems@[i])
        },
        Collected::Big(set) => {
            &&& set.wf()
            &&& progress::unstarted(set.state(), items)
            &&& slot_wakers::begins(set.lock(), SlotState::initial(items.len() as int))
            &&& set.log() == Seq::<Note>::empty()
        },
    }
}

/// Whether `collected` holds the futures `items`, of whose number these bounds were given,
/// in the representation that is appropriate.
pub open spec fn collects_as<W, F: Future, G: Fn(F) -> W>(
    collected: Collected<W, F>,
    items: Seq<F>,
    wrap: G,
    hint: (usize, Option<usize>),
) -> bool {
    &&& collects(collected, items, wrap)
    &&& collected is Big <==> collected_big(hint, items.len())
}

/// Whether a combinator of this state waits for the futures `items`, none of which was
/// polled yet. It is `small` if it polls all of them. These bounds on their number were
/// given.
pub open spec fn waits_for<F, T>(
    state: Seq<Progress<F, T>>,
    small: bool,
    items: Seq<F>,
    hint: (usize, Option<usize>),
) -> bool {
    &&& progress::unstarted(state, items)
    &&& small <==> !collected_big(hint, items.len())
}

fn wrap_all<W, F: Future, G: Fn(F) -> W>(items: Vec<F>, wrap: G) -> (elems: Vec<W>)
    requires
        forall|f: F| #[trigger] call_requires(wrap, (f,)),
    ensures
        elems@.len() == items@.len(),
        forall|i: int|
            0 <= i < items@.len() ==> call_ensures(wrap, (items@[i],), #[trigger] elems@[i]),
{
    let mut elems: Vec<W> = Vec::new();
    for item in it: items
        invariant
            elems.len() == it.index(),
            it.seq() == items@,
            forall|f: F| #[trigger] call_requires(wrap, (f,)),
            forall|i: int|
                0 <= i < elems@.len() ==> call_ensures(wrap, (items@[i],), #[trigger] elems@[i]),
    {
        elems.push(wrap(item));
    }
    elems
}

/// Collects the futures yielded by `iter`, which has given `hint` as bounds on
/// their number, wrapping each of them with `wrap` if there are at most `SMALL`
/// of them and tagging each of them with its position otherwise.
pub fn collect_sized<W, I, G>(iter: I, hint: (usize, Option<usize>), wrap: G) -> (collected:
    Collected<W, I::Item>) where I: Iterator, I::Item: Future, G: Fn(I::Item) -> W
    requires
        forall|f: I::Item| #[trigger] call_requires(wrap, (f,)),
    ensures
        iter.obeys_prophetic_iter_laws() ==> collects_as(collected, iter.remaining(), wrap, hint),
        exists|items: Seq<I::Item>| #[trigger] collects_as(collected, items, wrap, hint),
{
    let ghost laws = iter.obeys_prophetic_iter_laws();
    let ghost all = iter.remaining();
    if let Some(max) = hint.1 {
        if max <= SMALL {
            let items: Vec<I::Item> = task::collect(iter);
            let ghost held = items@;
            let collected: Collected<W, I::Item> = Collected::Small(wrap_all(items, wrap));
            assert(collects_as(collected, held, wrap, hint));
            return collected;
        }
    }
    let items: Vec<I::Item> = if hint.0 > SMALL {
        task::collect(iter)
    } else {
        // The bounds are inconclusive, so buffer up to `SMALL + 1` futures to
        // find out whether there are more than `SMALL`.
        let mut source: I = iter;
        let mut head: Vec<I::Item> = Vec::new();
        while head.len() <= SMALL
            invariant
                head.len() <= SMALL + 1,
                laws == iter.obeys_prophetic_iter_laws(),
                all == iter.remaining(),
                source.obeys_prophetic_iter_laws() == laws,
                laws ==> head@ + source.remaining() == all,
                forall|f: I::Item| #[trigger] call_requires(wrap, (f,)),
                !(hint.1 matches Some(max) && max <= SMALL),
                hint.0 <= SMALL,
            decreases SMALL + 1 - head.len(),
        {
            match source.next() {
                Some(future) => {
                    head.push(future);
                },
                None => {
                    let ghost held = head@;
                    let collected: Collected<W, I::Item> = Collected::Small(wrap_all(head, wrap));
                    assert(collects_as(collected, held, wrap, hint));
                    return collected;
                },
            }
        }
        task::collect_into(&mut head, source);
        head
    };
    let ghost held = items@;
    let collected: Collected<W, I::Item> = if items.len() < usize::MAX {
        Collected::Big(FuturesUnordered::new(items))
    } else {
        Collected::Small(wrap_all(items, wrap))
    };
    assert(collects_as(collected, held, wrap, hint));
    collected
}

/// Collects the futures yielded by `iter`, wrapping each of them with `wrap` if
/// there are at most `SMALL` of them and tagging each of them with its position
/// otherwise. Where the bounds that `iter` gives on their number settle this, the
/// futures are not counted first.
pub fn collect_futures<W, I, G>(iter: I, wrap: G) -> (collected: Collected<W, I::Item>) where
    I: Iterator,
    I::Item: Future,
    G: Fn(I::Item) -> W,

    requires
        forall|f: I::Item| #[trigger] call_requires(wrap, (f,)),
    ensures
        exists|hint: (usize, Option<usize>)|
            {
                &&& #[trigger] task::hinted(iter, hint)
                &&& iter.obeys_prophetic_iter_laws() ==> collects_as(
                    collected,
                    iter.remaining(),
                    wrap,
                    hint,
                )
                &&& exists|items: Seq<I::Item>| #[trigger] collects_as(collected, items, wrap, hint)
            },
{
    let hint: (usize, Option<usize>) = task::hint_of(&iter);
    collect_sized(iter, hint, wrap)
}

/// Allocates a slot for the output of each of the given futures.
pub fn output_slots<F: Future, T>(set: &FuturesUnordered<F>) -> (outputs: Vec<Option<T>>)
    ensures
        outputs@ == Seq::new(set.state().len(), |i: int| None::<T>),
{
    let len: usize = set.len();
    let mut outputs: Vec<Option<T>> = Vec::new();
    while outputs.len() < len
        invariant
            outputs.len() <= len,
            outputs@ == Seq::new(outputs.len() as nat, |i: int| None::<T>),
        decreases len - outputs.len(),
    {
        outputs.push(None);
    }
    outputs
}

/// Unwraps the outputs of all futures once they have completed.
pub fn take_outputs<T>(outputs: &mut Vec<Option<T>>) -> (taken: Vec<T>)
    requires
        forall|i: int| 0 <= i < old(outputs)@.len() ==> #[trigger] old(outputs)@[i] is Some,
    ensures
        final(outputs)@.len() == 0,
        taken@ == Seq::new(old(outputs)@.len(), |i: int| old(outputs)@[i]->0),
{
    let ghost before = outputs@;
    let mut slots: Vec<Option<T>> = Vec::new();
    std::mem::swap(outputs, &mut slots);
    let mut taken: Vec<T> = Vec::new();
    for slot in it: slots
        invariant
            it.seq() == before,
            forall|i: int| 0 <= i < before.len() ==> #[trigger] before[i] is Some,
            taken@ == Seq::new(it.index() as nat, |i: int| before[i]->0),
    {
        match slot {
            Some(output) => {
                taken.push(output);
            },
            None => {},
        }
    }
    taken
}

/// The progress of the futures in `elems`.
pub open spec fn small_state<F: Future>(elems: Seq<MaybeDone<F>>) -> Seq<Progress<F, F::Output>> {
    Seq::new(elems.len(), |i: int| elems[i]@)
}

/// The progress of the futures of a set, of which `outputs` holds the outputs of
/// those that have left it.
pub open spec fn big_state<F, T>(
    set: Seq<Progress<F, T>>,
    outputs: Seq<Option<T>>,
) -> Seq<Progress<F, T>> {
    Seq::new(
        outputs.len(),
        |i: int|
            match outputs[i] {
                Some(output) => Progress::Done(output),
                None => set[i],
            },
    )
}

/// Whether each future is either in the set or has its output in `outputs`.
pub open spec fn matched<F, T>(set: Seq<Progress<F, T>>, outputs: Seq<Option<T>>) -> bool {
    &&& set.len() == outputs.len()
    &&& forall|i: int|
        0 <= i < outputs.len() ==> (#[trigger] outputs[i] is None <==> set[i] is Pending)
}

/// The futures that were never polled are in the set.
proof fn lemma_big_fresh<F, T>(
    set: Seq<Progress<F, T>>,
    outputs: Seq<Option<T>>,
    trace: Seq<PollEvent<F, T, ()>>,
)
    requires
        matched(set, outputs),
        progress::valid(set, trace),
    ensures
        progress::same_fresh(
            progress::run(set, trace),
            progress::run(big_state(set, outputs), trace),
        ),
{
    let before = big_state(set, outputs);
    let now = progress::run(set, trace);
    let then = progress::run(before, trace);
    progress::lemma_same_polls(set, before, trace);
    assert forall|i: int|
        #![trigger now[i]]
        #![trigger then[i]]
        0 <= i < now.len() implies (progress::fresh(now[i]) <==> progress::fresh(then[i])) by {
        assert(then[i] == (if set[i] is Pending {
            now[i]
        } else {
            before[i]
        }));
        if set[i] !is Pending {
            assert(outputs[i] is Some);
            if now[i] is Pending {
                progress::lemma_pending_stays(set, trace, i);
            }
        }
    }
}

/// What one step of polling the futures of a set does to all futures, those that
/// have left the set before included.
proof fn lemma_big_step<F, T>(
    lock: SlotLock,
    waker: Waker,
    set: Seq<Progress<F, T>>,
    after: Seq<Progress<F, T>>,
    outputs: Seq<Option<T>>,
    result: Poll<Option<OrderWrapper<T>>>,
    gives: Gives<F, T, ()>,
    trace: Seq<PollEvent<F, T, ()>>,
    thens: Seq<SlotState<Waker>>,
)
    requires
        futures_unordered::stepped(lock, waker, set, after, result, gives, trace, thens),
        matched(set, outputs),
    ensures
        progress::valid(big_state(set, outputs), trace),
        progress::told(big_state(set, outputs), trace, gives),
        progress::no_failure(trace),
        progress::all_in_turn(lock, big_state(set, outputs), trace),
        match result {
            Poll::Pending => {
                let now = big_state(after, outputs);
                &&& matched(after, outputs)
                &&& now == progress::run(big_state(set, outputs), trace)
                &&& progress::taken_up(big_state(set, outputs), now)
                &&& progress::waits(
                    big_state(set, outputs),
                    now,
                    trace,
                    Manner::Slots(lock, waker),
                )
                &&& !progress::all_done(now)
            },
            Poll::Ready(None) => progress::all_done(big_state(set, outputs)) && after == set
                && forall|i: int| 0 <= i < set.len() ==> #[trigger] set[i] !is Pending,
            Poll::Ready(Some(output)) => {
                let stored = outputs.update(output.index as int, Some(output.data));
                let now = big_state(after, stored);
                &&& output.index < outputs.len()
                &&& matched(after, stored)
                &&& now == progress::run(big_state(set, outputs), trace)
                &&& trace.len() > 0
                &&& progress::pending_count(now) + 1 == progress::pending_count(
                    big_state(set, outputs),
                )
            },
        },
{
    let before = big_state(set, outputs);
    progress::lemma_same_polls(set, before, trace);
    progress::lemma_same_told(set, before, trace, gives);
    progress::lemma_pending_count_same(set, before);
    assert forall|k: int| 0 <= k < trace.len() implies progress::same_fresh(
        progress::run(set, #[trigger] trace.take(k)),
        progress::run(before, trace.take(k)),
    ) by {
        progress::lemma_valid_take(set, trace, k);
        lemma_big_fresh(set, outputs, trace.take(k));
    }
    progress::lemma_same_turns(lock, set, trace, before, trace);
    match result {
        Poll::Pending => {
            progress::lemma_all_waited(set, trace);
            progress::lemma_all_waited(before, trace);
            let now = big_state(after, outputs);
            assert forall|n: int| 0 <= n && #[trigger] progress::polled_up_to(
                before,
                n,
            ) implies progress::polled_up_to(now, n + 2) by {
                assert forall|i: int| 0 <= i < n && i < set.len() implies !progress::fresh(
                    #[trigger] set[i],
                ) by {
                    assert(!progress::fresh(before[i]));
                }
                assert(progress::polled_up_to(set, n));
            }
            lemma_big_fresh(set, outputs, trace);
            assert(now =~= progress::run(before, trace));
            assert(progress::pending_of(now) =~= progress::pending_of(after));
            slot_wakers::lemma_pause_waits(lock, waker, set, after, trace, thens);
            progress::lemma_same_waits(set, after, trace, before, now, trace, lock, waker);
            let i = choose|i: int| 0 <= i < set.len() && #[trigger] set[i] is Pending;
            assert(now[i] !is Done);
        },
        Poll::Ready(None) => {},
        Poll::Ready(Some(output)) => {
            let earlier = trace.drop_last();
            let index = output.index as int;
            progress::lemma_all_waited(set, earlier);
            assert forall|k: int| 0 <= k < trace.len() implies !progress::failed(
                #[trigger] trace[k].result,
            ) by {
                assert(k == earlier.len() || trace[k] == earlier[k]);
            }
            progress::lemma_same_polls(set, before, earlier);
            progress::lemma_all_waited(before, earlier);
            let stored = outputs.update(index, Some(output.data));
            let now = big_state(after, stored);
            let middle = progress::run(before, earlier);
            assert(now =~= middle.update(index, Progress::Done(output.data)));
            progress::lemma_pending_count_update(middle, index, Progress::Done(output.data));
        },
    }
}

/// Whether polling the futures of a set until one of them completes, again and again, has
/// given the outputs `given`, one after the other. What is left in the set and the outputs
/// stored so far are those of `sets` and `outs`.
pub open spec fn collects_outputs<F, T>(
    lock: SlotLock,
    waker: Waker,
    sets: Seq<Seq<Progress<F, T>>>,
    outs: Seq<Seq<Option<T>>>,
    given: Seq<OrderWrapper<T>>,
    gives: Gives<F, T, ()>,
) -> bool {
    &&& sets.len() == given.len() + 1
    &&& outs.len() == given.len() + 1
    &&& forall|k: int|
        0 <= k < given.len() ==> {
            &&& futures_unordered::may_step(
                lock,
                waker,
                sets[k],
                sets[k + 1],
                Poll::Ready(Some(#[trigger] given[k])),
                gives,
            )
            &&& slot_wakers::marked_complete(lock, given[k].index as int)
            &&& outs[k + 1] == outs[k].update(given[k].index as int, Some(given[k].data))
        }
}

/// Whether waiting for the futures of a set in one call, in which those that complete give
/// the outputs `given`, takes all futures from `start` to `end` and gives `result`.
pub open spec fn goes_through<F, T>(
    lock: SlotLock,
    waker: Waker,
    start: Seq<Progress<F, T>>,
    end: Seq<Progress<F, T>>,
    result: Poll<Seq<T>>,
    sets: Seq<Seq<Progress<F, T>>>,
    outs: Seq<Seq<Option<T>>>,
    given: Seq<OrderWrapper<T>>,
    gives: Gives<F, T, ()>,
) -> bool {
    &&& collects_outputs(lock, waker, sets, outs, given, gives)
    &&& start == big_state(sets[0], outs[0])
    &&& match result {
        Poll::Pending => exists|after: Seq<Progress<F, T>>|
            {
                &&& #[trigger] futures_unordered::may_step(
                    lock,
                    waker,
                    sets.last(),
                    after,
                    Poll::<Option<OrderWrapper<T>>>::Pending,
                    gives,
                )
                &&& end == big_state(after, outs.last())
            },
        Poll::Ready(outputs) => {
            &&& futures_unordered::may_step(
                lock,
                waker,
                sets.last(),
                sets.last(),
                Poll::Ready(None::<OrderWrapper<T>>),
                gives,
            )
            &&& outputs == Seq::new(outs.last().len(), |i: int| outs.last()[i]->0)
            &&& end == Seq::<Progress<F, T>>::empty()
        },
    }
}

/// Whether waiting for the futures of a set, whose slots stand behind `lock`, in one call
/// that is made with `waker`, can have taken all futures from `start` to `end` and given
/// `result`: the set is polled until no future of it completes.
pub open spec fn went_through<F, T>(
    lock: SlotLock,
    waker: Waker,
    start: Seq<Progress<F, T>>,
    end: Seq<Progress<F, T>>,
    result: Poll<Seq<T>>,
    gives: Gives<F, T, ()>,
) -> bool {
    exists|
        sets: Seq<Seq<Progress<F, T>>>,
        outs: Seq<Seq<Option<T>>>,
        given: Seq<OrderWrapper<T>>,
    | #[trigger]
        goes_through(lock, waker, start, end, result, sets, outs, given, gives)
}

/// One more output.
proof fn lemma_collects_more<F, T>(
    lock: SlotLock,
    waker: Waker,
    sets: Seq<Seq<Progress<F, T>>>,
    outs: Seq<Seq<Option<T>>>,
    given: Seq<OrderWrapper<T>>,
    after: Seq<Progress<F, T>>,
    output: OrderWrapper<T>,
    gives: Gives<F, T, ()>,
)
    requires
        collects_outputs(lock, waker, sets, outs, given, gives),
        futures_unordered::may_step(
            lock,
            waker,
            sets.last(),
            after,
            Poll::Ready(Some(output)),
            gives,
        ),
        slot_wakers::marked_complete(lock, output.index as int),
    ensures
        collects_outputs(
            lock,
            waker,
            sets.push(after),
            outs.push(outs.last().update(output.index as int, Some(output.data))),
            given.push(output),
            gives,
        ),
{
    let more = given.push(output);
    let more_sets = sets.push(after);
    let stored = outs.last().update(output.index as int, Some(output.data));
    let more_outs = outs.push(stored);
    assert forall|k: int| 0 <= k < more.len() implies {
        &&& futures_unordered::may_step(
            lock,
            waker,
            more_sets[k],
            more_sets[k + 1],
            Poll::Ready(Some(#[trigger] more[k])),
            gives,
        )
        &&& slot_wakers::marked_complete(lock, more[k].index as int)
        &&& more_outs[k + 1] == more_outs[k].update(more[k].index as int, Some(more[k].data))
    } by {
        if k < given.len() {
            assert(more[k] == given[k]);
        }
    }
}

/// Polls the futures of a set that were never polled or that were woken, and stores
/// the output of each of them at its position. Once all futures have completed,
/// hands out the outputs.
pub fn poll_big<F: Future>(
    set: &mut FuturesUnordered<F>,
    outputs: &mut Vec<Option<F::Output>>,
    cx: &mut Context<'_>,
) -> (result: Poll<Vec<F::Output>>)
    requires
        old(set).wf(),
        matched(old(set).state(), old(outputs)@),
    ensures
        final(set).wf(),
        final(set).lock() == old(set).lock(),
        *final(cx) == *old(cx),
        result is Ready ==> final(outputs)@.len() == 0,
        result is Ready ==> forall|i: int|
            0 <= i < final(set).state().len() ==> #[trigger] final(set).state()[i] !is Pending,
        result is Pending ==> matched(final(set).state(), final(outputs)@),
        progress::joined(
            big_state(old(set).state(), old(outputs)@),
            big_state(final(set).state(), final(outputs)@),
            progress::viewed(result),
            Manner::Slots(old(set).lock(), task::context_waker(*old(cx))),
            task::giving::<F>(),
        ),
        went_through(
            old(set).lock(),
            task::context_waker(*old(cx)),
            big_state(old(set).state(), old(outputs)@),
            big_state(final(set).state(), final(outputs)@),
            progress::viewed(result),
            task::giving::<F>(),
        ),
        final(set).log() == old(set).log() + ledger::added(old(set).log(), final(set).log()),
        ledger::book_kept(
            old(set).lock(),
            task::context_waker(*old(cx)),
            big_state(old(set).state(), old(outputs)@),
            big_state(final(set).state(), final(outputs)@),
            progress::succeeding(progress::viewed(result)),
            task::giving::<F>(),
            ledger::added(old(set).log(), final(set).log()),
        ),
{
    let ghost start = big_state(set.state(), outputs@);
    let ghost lock = set.lock();
    let ghost waker = task::context_waker(*cx);
    let ghost gives = task::giving::<F>();
    let ghost manner = Manner::Slots(lock, waker);
    let ghost mut trace: Seq<PollEvent<F, F::Output, ()>> = Seq::empty();
    let ghost mut sets = seq![set.state()];
    let ghost mut outs = seq![outputs@];
    let ghost mut given: Seq<OrderWrapper<F::Output>> = Seq::empty();
    let ghost log = set.log();
    let ghost from = set.unpolled() as int;
    let ghost mut notes: Seq<Note> = Seq::empty();
    proof {
        set.lemma_unpolled();
        lemma_big_fresh(set.state(), outputs@, trace);
        assert forall|i: int| 0 <= i < start.len() implies (progress::fresh(#[trigger] start[i])
            <==> from <= i) by {
            assert(progress::fresh(set.state()[i]) <==> from <= i);
        }
        assert(log + notes =~= log);
        ledger::lemma_kept_empty(lock, waker, progress::pending_of(start), from);
        assert(ledger::turns_of(trace) =~= Seq::empty());
    }
    loop
        invariant
            set.wf(),
            matched(set.state(), outputs@),
            start == big_state(old(set).state(), old(outputs)@),
            lock == old(set).lock(),
            set.lock() == lock,
            *cx == *old(cx),
            waker == task::context_waker(*old(cx)),
            manner == Manner::Slots(lock, waker),
            gives == task::giving::<F>(),
            progress::valid(start, trace),
            progress::told(start, trace, gives),
            progress::no_failure(trace),
            progress::all_in_turn(lock, start, trace),
            trace.len() + progress::pending_count(big_state(set.state(), outputs@))
                >= progress::pending_count(start),
            collects_outputs(lock, waker, sets, outs, given, gives),
            big_state(sets[0], outs[0]) == start,
            sets.last() == set.state(),
            outs.last() == outputs@,
            big_state(set.state(), outputs@) == progress::run(start, trace),
            log == old(set).log(),
            set.log() == log + notes,
            0 <= from,
            forall|i: int|
                0 <= i < start.len() ==> (progress::fresh(#[trigger] start[i]) <==> from <= i),
            ledger::kept(
                lock,
                waker,
                notes,
                ledger::turns_of(trace),
                progress::pending_of(progress::run(start, trace)),
                false,
                from,
                set.unpolled() as int,
            ),
            notes.len() > 0 ==> !(notes.last() is Polled),
        decreases progress::pending_count(big_state(set.state(), outputs@)),
    {
        let ghost held = set.state();
        let ghost before = big_state(set.state(), outputs@);
        let ghost earlier = set.log();
        let ghost middle = set.unpolled() as int;
        let step: Poll<Option<OrderWrapper<F::Output>>> = set.poll_next(cx);
        let ghost to = set.unpolled() as int;
        let ghost more = ledger::added(earlier, set.log());
        let ghost limit = progress::pending_count(held);
        let ghost (polls, thens) = choose|
            polls: Seq<PollEvent<F, F::Output, ()>>,
            thens: Seq<SlotState<Waker>>,
        |
            {
                &&& #[trigger] futures_unordered::stepped(
                    lock,
                    waker,
                    held,
                    set.state(),
                    step,
                    gives,
                    polls,
                    thens,
                )
                &&& ledger::kept(
                    lock,
                    waker,
                    more,
                    ledger::turns_of(polls),
                    progress::pending_of(set.state()),
                    slot_wakers::leaves_idle(limit, step, polls, thens),
                    middle,
                    to,
                )
                &&& more.len() > 0 ==> !(more.last() is Polled)
            };
        let ghost idle = slot_wakers::leaves_idle(limit, step, polls, thens);
        let ghost longer = notes + more;
        proof {
            lemma_big_step(lock, waker, held, set.state(), outputs@, step, gives, polls, thens);
            progress::lemma_run_concat(start, trace, polls);
            progress::lemma_told_concat(start, trace, polls, gives);
            progress::lemma_turns_concat(lock, start, trace, polls);
            let now = progress::run(before, polls);
            ledger::lemma_still(before, polls);
            if let Poll::Ready(None) = step {
                assert(now =~= before);
            }
            assert(progress::pending_of(set.state()) =~= progress::pending_of(now));
            ledger::lemma_kept_concat(
                lock,
                waker,
                notes,
                ledger::turns_of(trace),
                progress::pending_of(before),
                from,
                middle,
                more,
                ledger::turns_of(polls),
                progress::pending_of(now),
                idle,
                to,
            );
            ledger::lemma_turns_concat(trace, polls);
            assert(set.log() =~= log + longer);
            assert(ledger::added(log, set.log()) =~= longer);
            if more.len() > 0 {
                assert(longer.last() == more.last());
            } else {
                assert(longer =~= notes);
            }
        }
        match step {
            Poll::Pending => {
                proof {
                    let now = big_state(set.state(), outputs@);
                    progress::lemma_taken_up_later(start, trace, now);
                    progress::lemma_waits_concat(start, before, now, trace, polls, lock, waker);
                    progress::lemma_joined_by(start, trace + polls, manner, gives);
                    set.lemma_unpolled();
                    assert forall|i: int| 0 <= i < now.len() implies (progress::fresh(
                        #[trigger] now[i],
                    ) <==> to <= i) by {
                        assert(progress::fresh(set.state()[i]) <==> to <= i);
                    }
                    assert(ledger::keeps_book(
                        lock,
                        waker,
                        start,
                        now,
                        progress::succeeding(Poll::<Seq<F::Output>>::Pending),
                        gives,
                        longer,
                        trace + polls,
                        idle,
                        from,
                        to,
                    ));
                    assert(goes_through(
                        lock,
                        waker,
                        start,
                        now,
                        Poll::<Seq<F::Output>>::Pending,
                        sets,
                        outs,
                        given,
                        gives,
                    ));
                }
                return Poll::Pending;
            },
            Poll::Ready(Some(output)) => {
                let ghost held_output = output;
                let OrderWrapper { data, index } = output;
                outputs[index] = Some(data);
                proof {
                    trace = trace + polls;
                    notes = longer;
                    lemma_collects_more(
                        lock,
                        waker,
                        sets,
                        outs,
                        given,
                        set.state(),
                        held_output,
                        gives,
                    );
                    sets = sets.push(set.state());
                    outs = outs.push(outputs@);
                    given = given.push(held_output);
                }
            },
            Poll::Ready(None) => {
                let taken: Vec<F::Output> = take_outputs(outputs);
                proof {
                    assert(taken@ =~= progress::outputs(before));
                    assert(big_state(set.state(), outputs@) =~= Seq::empty());
                    progress::lemma_joined_by(start, trace, manner, gives);
                    assert(trace + polls =~= trace);
                    assert(ledger::keeps_book(
                        lock,
                        waker,
                        start,
                        Seq::empty(),
                        progress::succeeding(Poll::Ready(taken@)),
                        gives,
                        longer,
                        trace,
                        idle,
                        from,
                        to,
                    ));
                    assert(goes_through(
                        lock,
                        waker,
                        start,
                        big_state(set.state(), outputs@),
                        Poll::Ready(taken@),
                        sets,
                        outs,
                        given,
                        gives,
                    ));
                }
                return Poll::Ready(taken);
            },
        }
    }
}

/// The outputs of futures that have all completed.
fn take_done<F: Future>(elems: Vec<MaybeDone<F>>) -> (outputs: Vec<F::Output>)
    requires
        progress::all_done(small_state(elems@)),
    ensures
        outputs@ == progress::outputs(small_state(elems@)),
{
    let ghost state = small_state(elems@);
    let mut outputs: Vec<F::Output> = Vec::new();
    for elem in it: elems
        invariant
            it.seq() == elems@,
            state == small_state(elems@),
            progress::all_done(state),
            outputs@ == Seq::new(it.index() as nat, |i: int| state[i]->Done_0),
    {
        assert(state[it.index()] is Done);
        match elem {
            MaybeDone::Done(output) => {
                outputs.push(output);
            },
            MaybeDone::Future(_) => {},
        }
    }
    outputs
}

/// Polls each future that has not completed. Once all futures have completed,
/// hands out their outputs.
pub fn poll_small<F: Future>(elems: &mut Vec<MaybeDone<F>>, cx: &mut Context<'_>) -> (result: Poll<
    Vec<F::Output>,
>)
    requires
        progress::all_live(small_state(old(elems)@)),
    ensures
        progress::all_live(small_state(final(elems)@)),
        progress::joined(
            small_state(old(elems)@),
            small_state(final(elems)@),
            progress::viewed(result),
            Manner::Sweep(task::context_waker(*old(cx)), task::context_waker(*final(cx))),
            task::giving::<F>(),
        ),
{
    let ghost start = small_state(elems@);
    let ghost gives = task::giving::<F>();
    let ghost mut trace: Seq<PollEvent<F, F::Output, ()>> = Seq::empty();
    let mut all_done: bool = true;
    let mut i: usize = 0;
    while i < elems.len()
        invariant
            i <= elems.len(),
            elems.len() == start.len(),
            start == small_state(old(elems)@),
            gives == task::giving::<F>(),
            progress::valid(start, trace),
            progress::told(start, trace, gives),
            progress::no_failure(trace),
            progress::all_live(start),
            progress::passed_on(
                trace,
                task::context_waker(*old(cx)),
                task::context_waker(*cx),
            ),
            small_state(elems@) == progress::run(start, trace),
            forall|j: int| i <= j < start.len() ==> #[trigger] elems@[j]@ == start[j],
            all_done ==> forall|j: int| 0 <= j < i ==> #[trigger] elems@[j]@ is Done,
            !all_done ==> exists|j: int| 0 <= j < i && #[trigger] elems@[j]@ !is Done,
            forall|k: int| 0 <= k < trace.len() ==> (#[trigger] trace[k]).index < i,
            forall|j: int, k: int|
                0 <= j < k < trace.len() ==> (#[trigger] trace[j]).index < (#[trigger] trace[k]).index,
            forall|j: int|
                0 <= j < i && #[trigger] start[j] is Pending ==> exists|k: int|
                    0 <= k < trace.len() && (#[trigger] trace[k]).index == j,
        decreases elems.len() - i,
    {
        let ghost held = elems@;
        let ghost earlier = trace;
        let ghost waker = task::context_waker(*cx);
        let signal: Poll<()> = elems[i].poll(cx);
        proof {
            let after = elems@[i as int]@;
            if start[i as int] is Pending {
                let event = PollEvent {
                    index: i as int,
                    waker,
                    left: task::context_waker(*cx),
                    moved: after->Pending_0.pointer,
                    result: progress::returned(after, progress::succeeding(signal)),
                };
                progress::lemma_run_step(start, trace, event);
                progress::lemma_told_step(start, trace, event, gives);
                trace = trace.push(event);
                assert forall|j: int| 0 <= j < i + 1 && #[trigger] start[j] is Pending implies exists|
                    k: int,
                |
                    0 <= k < trace.len() && (#[trigger] trace[k]).index == j by {
                    if j < i {
                        let k = choose|k: int|
                            0 <= k < earlier.len() && (#[trigger] earlier[k]).index == j;
                        assert(trace[k].index == j);
                    }
                }
            }
            assert forall|j: int|
                #![trigger elems@[j]@]
                #![trigger held[j]@]
                0 <= j < start.len() && j != i implies elems@[j]@ == held[j]@ by {}
        }
        if let Poll::Pending = signal {
            all_done = false;
        }
        i = i + 1;
    }
    proof {
        if !all_done {
            let j = choose|j: int| 0 <= j < i && #[trigger] elems@[j]@ !is Done;
            assert(small_state(elems@)[j] !is Done);
        }
        progress::lemma_sweep_takes_up(start, trace);
        progress::lemma_all_live(start, trace);
        progress::lemma_joined_by(
            start,
            trace,
            Manner::Sweep(task::context_waker(*old(cx)), task::context_waker(*cx)),
            gives,
        );
    }
    if all_done {
        let mut done: Vec<MaybeDone<F>> = Vec::new();
        std::mem::swap(elems, &mut done);
        let outputs: Vec<F::Output> = take_done(done);
        assert(small_state(elems@) =~= Seq::empty());
        Poll::Ready(outputs)
    } else {
        Poll::Pending
    }
}

#[verifier::reject_recursive_types(F)]
pub enum JoinAllKind<F: Future> {
    Small { elems: Vec<MaybeDone<F>> },
    Big {
        fut: FuturesUnordered<F>,
        /// The output of each future, stored at the position of the future.
        outputs: Vec<Option<F::Output>>,
    },
}

impl<F: Future> JoinAllKind<F> {
    pub open spec fn wf(&self) -> bool {
        match *self {
            JoinAllKind::Small { elems } => progress::all_live(small_state(elems@)),
            JoinAllKind::Big { fut, outputs } => fut.wf() && matched(fut.state(), outputs@),
        }
    }

    /// The progress of the futures.
    pub open spec fn state(&self) -> Seq<Progress<F, F::Output>> {
        match *self {
            JoinAllKind::Small { elems } => small_state(elems@),
            JoinAllKind::Big { fut, outputs } => big_state(fut.state(), outputs@),
        }
    }
}

/// Whether waiting for the futures of a set in one call, which ends the wait and gives
/// `result`, has done what `notes` are of, and then has removed and dropped the waker of the
/// task and has dropped `set`, and nothing else. What was done before the call is what `log`
/// is of.
pub open spec fn closes_book<F: Future>(
    lock: SlotLock,
    waker: Waker,
    start: Seq<Progress<F, F::Output>>,
    result: Poll<Seq<F::Output>>,
    log: Seq<Note>,
    notes: Seq<Note>,
    set: FuturesUnordered<F>,
) -> bool {
    &&& ledger::book_kept(
        lock,
        waker,
        start,
        Seq::empty(),
        progress::succeeding(result),
        task::giving::<F>(),
        notes,
    )
    &&& slot_wakers::closes(lock, log + notes, set.log())
    &&& set.lock() == lock
    &&& task::dropped(set)
}

/// Whether waiting for the futures of a set in one call, which ends the wait and gives
/// `result`, has done nothing but what is to be done, and then has removed and dropped the
/// waker of the task and has dropped the set.
pub open spec fn book_closed<F: Future>(
    lock: SlotLock,
    waker: Waker,
    start: Seq<Progress<F, F::Output>>,
    result: Poll<Seq<F::Output>>,
    log: Seq<Note>,
) -> bool {
    exists|notes: Seq<Note>, set: FuturesUnordered<F>| #[trigger]
        closes_book(lock, waker, start, result, log, notes, set)
}

/// Future for the [`join_all`] function.
#[must_use]
#[verifier::reject_recursive_types(F)]
pub struct JoinAll<F: Future> {
    kind: JoinAllKind<F>,
}

impl<F: Future> View for JoinAll<F> {
    type V = Seq<Progress<F, F::Output>>;

    /// The progress of the futures, in the order in which they were given.
    closed spec fn view(&self) -> Seq<Progress<F, F::Output>> {
        self.kind.state()
    }
}

/// Creates a future which represents a collection of the outputs of the futures
/// given by `iter`, which has given `hint` as bounds on their number.
pub fn join_all_sized<I>(iter: I, hint: (usize, Option<usize>)) -> (joined: JoinAll<I::Item>) where
    I: Iterator,
    I::Item: Future,

    ensures
        iter.obeys_prophetic_iter_laws() ==> waits_for(
            joined@,
            joined.is_small(),
            iter.remaining(),
            hint,
        ),
        exists|items: Seq<I::Item>| #[trigger]
            waits_for(joined@, joined.is_small(), items, hint),
        !joined.is_small() ==> slot_wakers::begins(
            joined.lock(),
            SlotState::initial(joined@.len() as int),
        ),
        !joined.is_small() ==> joined.log() == Seq::<Note>::empty(),
{
    let wrap = |future: I::Item| -> (elem: MaybeDone<I::Item>)
        ensures
            progress::begins_with(elem@, future),
        { MaybeDone::Future(Pinned::new(future)) };
    let collected: Collected<MaybeDone<I::Item>, I::Item> = collect_sized(iter, hint, wrap);
    let ghost held = collected;
    let kind: JoinAllKind<I::Item> = match collected {
        Collected::Small(elems) => {
            JoinAllKind::Small { elems }
        },
        Collected::Big(fut) => {
            let outputs: Vec<Option<<I::Item as Future>::Output>> = output_slots(&fut);
            JoinAllKind::Big { fut, outputs }
        },
    };
    let joined: JoinAll<I::Item> = JoinAll { kind };
    proof {
        assert forall|items: Seq<I::Item>| #[trigger]
            collects_as(held, items, wrap, hint) implies waits_for(
            joined@,
            joined.is_small(),
            items,
            hint,
        ) by {
            assert forall|i: int| 0 <= i < items.len() implies progress::begins_with(
                #[trigger] joined@[i],
                items[i],
            ) by {
                if let Collected::Small(elems) = held {
                    assert(call_ensures(wrap, (items[i],), elems@[i]));
                }
            }
        }
        let items = choose|items: Seq<I::Item>| #[trigger] collects_as(held, items, wrap, hint);
        assert(waits_for(joined@, joined.is_small(), items, hint));
    }
    joined
}

impl<F: Future> JoinAll<F> {
    #[verifier::type_invariant]
    spec fn inv(self) -> bool {
        self.kind.wf()
    }

    /// Whether all futures that have not completed are polled whenever this is
    /// polled, rather than those that were woken.
    pub closed spec fn is_small(&self) -> bool {
        self.kind is Small
    }

    /// The slots of many futures.
    pub closed spec fn lock(&self) -> SlotLock {
        self.kind->Big_fut.lock()
    }

    /// What was done to the slots of many futures, other than by their wakers, and to the
    /// futures, one after the other.
    pub closed spec fn log(&self) -> Seq<Note> {
        self.kind->Big_fut.log()
    }

    /// How a poll with a context of waker `waker`, which has left one of waker `left`, polls
    /// the futures.
    pub open spec fn manner(&self, waker: Waker, left: Waker) -> Manner {
        if self.is_small() {
            Manner::Sweep(waker, left)
        } else {
            Manner::Slots(self.lock(), waker)
        }
    }

    /// Polls the futures, and hands out their outputs once all of them have
    /// completed.
    ///
    /// The contract does not say that the task is woken no more often than it is to be.
    pub fn poll(&mut self, cx: &mut Context<'_>) -> (result: Poll<Vec<F::Output>>)
        ensures
            progress::joined(
                old(self)@,
                final(self)@,
                progress::viewed(result),
                old(self).manner(task::context_waker(*old(cx)), task::context_waker(*final(cx))),
                task::giving::<F>(),
            ),
            !old(self).is_small() ==> {
                &&& *final(cx) == *old(cx)
                &&& went_through(
                    old(self).lock(),
                    task::context_waker(*old(cx)),
                    old(self)@,
                    final(self)@,
                    progress::viewed(result),
                    task::giving::<F>(),
                )
                &&& result is Pending ==> final(self).lock() == old(self).lock()
                &&& result is Ready ==> slot_wakers::closed_off(old(self).lock())
            },
            result is Pending ==> final(self).is_small() == old(self).is_small(),
            !old(self).is_small() ==> match result {
                Poll::Pending => {
                    &&& final(self).log() == old(self).log() + ledger::added(
                        old(self).log(),
                        final(self).log(),
                    )
                    &&& ledger::book_kept(
                        old(self).lock(),
                        task::context_waker(*old(cx)),
                        old(self)@,
                        final(self)@,
                        progress::succeeding(progress::viewed(result)),
                        task::giving::<F>(),
                        ledger::added(old(self).log(), final(self).log()),
                    )
                },
                Poll::Ready(_) => book_closed(
                    old(self).lock(),
                    task::context_waker(*old(cx)),
                    old(self)@,
                    progress::viewed(result),
                    old(self).log(),
                ),
            },
    {
        proof {
            use_type_invariant(&*self);
        }
        let mut kind: JoinAllKind<F> = JoinAllKind::Small { elems: Vec::new() };
        std::mem::swap(&mut self.kind, &mut kind);
        match kind {
            JoinAllKind::Small { mut elems } => {
                let result: Poll<Vec<F::Output>> = poll_small(&mut elems, cx);
                self.kind = JoinAllKind::Small { elems };
                result
            },
            JoinAllKind::Big { mut fut, mut outputs } => {
                let ghost start = old(self)@;
                let ghost lock = fut.lock();
                let ghost waker = task::context_waker(*cx);
                let ghost earlier = fut.log();
                let result: Poll<Vec<F::Output>> = poll_big(&mut fut, &mut outputs, cx);
                assert(result is Ready ==> self.kind.state() =~= big_state(fut.state(), outputs@));
                match result {
                    Poll::Pending => {
                        self.kind = JoinAllKind::Big { fut, outputs };
                        Poll::Pending
                    },
                    Poll::Ready(outputs) => {
                        let ghost log = fut.log();
                        fut.close();
                        task::discard(fut);
                        assert(closes_book(
                            lock,
                            waker,
                            start,
                            Poll::Ready(outputs@),
                            earlier,
                            ledger::added(earlier, log),
                            fut,
                        ));
                        Poll::Ready(outputs)
                    },
                }
            },
        }
    }

    /// Creates a future which represents a collection of the outputs of the
    /// futures yielded by `iter`.
    pub fn from_iter<I: Iterator<Item = F>>(iter: I) -> (joined: Self)
        ensures
            exists|hint: (usize, Option<usize>)|
                {
                    &&& #[trigger] task::hinted(iter, hint)
                    &&& iter.obeys_prophetic_iter_laws() ==> waits_for(
                        joined@,
                        joined.is_small(),
                        iter.remaining(),
                        hint,
                    )
                    &&& exists|items: Seq<F>| #[trigger]
                        waits_for(joined@, joined.is_small(), items, hint)
                },
            !joined.is_small() ==> slot_wakers::begins(
                joined.lock(),
                SlotState::initial(joined@.len() as int),
            ),
            !joined.is_small() ==> joined.log() == Seq::<Note>::empty(),
    {
        join_all(iter)
    }

    /// The representation of the futures.
    pub fn kind(&self) -> (kind: &JoinAllKind<F>)
        ensures
            kind.wf(),
            kind.state() == self@,
            kind is Small <==> self.is_small(),
    {
        proof {
            use_type_invariant(self);
        }
        &self.kind
    }

    /// Drops the waker of the task that polls this. Wakers of the futures can
    /// outlive `self`, and then don't wake a task that no longer polls it.
    pub fn close(&mut self)
        ensures
            final(self)@ == old(self)@,
            final(self).is_small() == old(self).is_small(),
            !old(self).is_small() ==> {
                &&& final(self).lock() == old(self).lock()
                &&& slot_wakers::closed_off(old(self).lock())
                &&& slot_wakers::closes(old(self).lock(), old(self).log(), final(self).log())
            },
    {
        proof {
            use_type_invariant(&*self);
        }
        let mut kind: JoinAllKind<F> = JoinAllKind::Small { elems: Vec::new() };
        std::mem::swap(&mut self.kind, &mut kind);
        if let JoinAllKind::Big { fut, outputs: _ } = &mut kind {
            fut.close();
        }
        std::mem::swap(&mut self.kind, &mut kind);
    }
}

/// Creates a future which represents a collection of the outputs of the futures
/// given.
///
/// The returned future will drive execution for all of its underlying futures,
/// collecting the results into a destination `Vec<T>` in the same order as they
/// were provided. If the number of futures is large, only the futures that have
/// been woken are polled.
pub fn join_all<I>(iter: I) -> (joined: JoinAll<I::Item>) where I: Iterator, I::Item: Future
    ensures
        exists|hint: (usize, Option<usize>)|
            {
                &&& #[trigger] task::hinted(iter, hint)
                &&& iter.obeys_prophetic_iter_laws() ==> waits_for(
                    joined@,
                    joined.is_small(),
                    iter.remaining(),
                    hint,
                )
                &&& exists|items: Seq<I::Item>| #[trigger]
                    waits_for(joined@, joined.is_small(), items, hint)
            },
        !joined.is_small() ==> slot_wakers::begins(
            joined.lock(),
            SlotState::initial(joined@.len() as int),
        ),
        !joined.is_small() ==> joined.log() == Seq::<Note>::empty(),
{
    let hint: (usize, Option<usize>) = task::hint_of(&iter);
    join_all_sized(iter, hint)
}

impl<F: Future> Unpin for JoinAll<F> {

}

impl<F: Future> Future for JoinAll<F> {
    type Output = Vec<F::Output>;

    fn poll(self: Pin<&mut Self>, cx: &mut Context<'_>) -> (result: Poll<Vec<F::Output>>)
        ensures
            exists|target: &mut Self|
                {
                    &&& #[trigger] task::points_to(self, target)
                    &&& progress::joined(
                        target@,
                        final(target)@,
                        progress::viewed(result),
                        target.manner(
                            task::context_waker(*old(cx)),
                            task::context_waker(*final(cx)),
                        ),
                        task::giving::<F>(),
                    )
                    &&& !target.is_small() ==> {
                        &&& *final(cx) == *old(cx)
                        &&& went_through(
                            target.lock(),
                            task::context_waker(*old(cx)),
                            target@,
                            final(target)@,
                            progress::viewed(result),
                            task::giving::<F>(),
                        )
                        &&& result is Pending ==> final(target).lock() == target.lock()
                        &&& result is Ready ==> slot_wakers::closed_off(target.lock())
                    }
                    &&& result is Pending ==> final(target).is_small() == target.is_small()
                    &&& !target.is_small() ==> match result {
                        Poll::Pending => {
                            &&& final(target).log() == target.log() + ledger::added(
                                target.log(),
                                final(target).log(),
                            )
                            &&& ledger::book_kept(
                                target.lock(),
                                task::context_waker(*old(cx)),
                                target@,
                                final(target)@,
                                progress::succeeding(progress::viewed(result)),
                                task::giving::<F>(),
                                ledger::added(target.log(), final(target).log()),
                            )
                        },
                        Poll::Ready(_) => book_closed(
                            target.lock(),
                            task::context_waker(*old(cx)),
                            target@,
                            progress::viewed(result),
                            target.log(),
                        ),
                    }
                },
    {
        task::unpin(self).poll(cx)
    }
}

} // verus!
