//! Slots that record which futures were woken.
//!
//! Each future gets a slot. Waking a slot appends it to a queue, from which the
//! task that polls the futures takes the slots in the order in which they were
//! woken. The queue is a list of slots that runs from its tail, the consumer's
//! end, to its head, the producers' end. It always holds a slot: where no other
//! is in it, it holds the stub, a slot without a future. A slot is appended in
//! two steps, first at the head and then by a link from the slot before it, so
//! a link may be missing for a while.
use crate::maybe_done::PollElem;
use vstd::prelude::*;

verus! {

struct Slot {
    /// The next slot in the queue, once the link to it was made.
    next: Option<usize>,
    /// Whether waking this slot does nothing. This is the case while the slot is
    /// in the queue, before its future is polled for the first time, and after
    /// its future has completed.
    queued: bool,
}

/// What came out of the queue.
#[derive(PartialEq, Eq, Structural, Clone, Copy, Debug)]
pub enum Dequeue {
    /// The first slot.
    Data(usize),
    /// The queue is empty, or the link to its first slot is missing.
    Empty,
    /// The link that would tell whether the first slot is the last is missing.
    Inconsistent,
}

/// The state of the slots.
#[verifier::reject_recursive_types(W)]
pub ghost struct SlotState<W> {
    /// The number of futures. The stub has this index.
    pub len: int,
    /// The index from which on no future has been polled.
    pub unpolled: int,
    /// The slots in the queue, from the tail to the head.
    pub order: Seq<int>,
    /// For each slot in the queue but the last, whether it has a link to the
    /// next one.
    pub links: Seq<bool>,
    /// For each future, whether waking its slot does nothing.
    pub queued: Seq<bool>,
    /// For each future, whether it has been polled and has not completed.
    pub active: Seq<bool>,
    /// Whether the task that polls the futures may be waiting for a wake-up.
    pub parked: bool,
    /// The waker of the task that polls the futures.
    pub parent: Option<W>,
}

/// For each element, whether it has not completed.
pub open spec fn pending_flags<T: PollElem>(elems: Seq<T>) -> Seq<bool> {
    Seq::new(elems.len(), |i: int| elems[i].progress() is Pending)
}

/// `order` without `stub`.
pub open spec fn without(order: Seq<int>, stub: int) -> Seq<int>
    decreases order.len(),
{
    if order.len() == 0 {
        Seq::empty()
    } else if order.last() == stub {
        without(order.drop_last(), stub)
    } else {
        without(order.drop_last(), stub).push(order.last())
    }
}

/// What is done to the slots at once.
#[verifier::reject_recursive_types(W)]
pub ghost enum Act<W> {
    /// A slot is woken.
    Wake(int),
    /// The future of a slot is to be polled for the first time.
    Start(int),
    /// The next slot to poll is looked for, where it is told of each future whether it has
    /// not completed. This is what is found.
    Look(Dequeue, Seq<bool>),
    /// The future of a slot has completed.
    Complete(int),
    /// The next slot to poll is looked for, where it is told of each future whether it has
    /// not completed, and there is none. So the task registers a waker, and announces that
    /// it may wait for a wake-up.
    Announce(W, Seq<bool>),
    /// Nothing is changed.
    Read,
    /// The waker of the task is removed.
    Close,
}

impl<W> SlotState<W> {
    /// The slots of `len` futures, none of which was polled yet.
    pub open spec fn initial(len: int) -> Self {
        SlotState {
            len,
            unpolled: 0,
            order: seq![len],
            links: Seq::empty(),
            queued: Seq::new(len as nat, |i: int| true),
            active: Seq::new(len as nat, |i: int| false),
            parked: false,
            parent: None,
        }
    }

    /// Whether doing `act` leads to `after`.
    pub open spec fn done(self, act: Act<W>, after: Self) -> bool {
        match act {
            Act::Wake(i) => 0 <= i < self.len && after == self.woken(i),
            Act::Start(i) => 0 <= i < self.len && after == self.started(i),
            Act::Look(result, pending) => self.looked(after, result, pending),
            Act::Complete(i) => 0 <= i < self.len && after == self.completed(i),
            Act::Announce(waker, pending) => self.looked_in_vain(after, waker, pending),
            Act::Read => after == self,
            Act::Close => after == self.closed(),
        }
    }

    /// Whether the queue is a possible one.
    pub open spec fn queue_wf(self) -> bool {
        &&& 0 <= self.len < usize::MAX
        &&& self.order.len() > 0
        &&& self.links.len() == self.order.len() - 1
        &&& self.order.no_duplicates()
        &&& forall|k: int| 0 <= k < self.order.len() ==> 0 <= #[trigger] self.order[k] <= self.len
    }

    /// Whether the state is a possible one.
    pub open spec fn wf(self) -> bool {
        &&& self.queue_wf()
        &&& 0 <= self.unpolled <= self.len
        &&& self.queued.len() == self.len
        &&& self.active.len() == self.len
        &&& forall|k: int| 0 < k < self.order.len() ==> #[trigger] self.order[k] != self.len
        &&& forall|i: int|
            0 <= i < self.len ==> #[trigger] self.queued[i] == (!self.active[i]
                || self.order.contains(i))
        &&& forall|i: int| self.unpolled <= i < self.len ==> !#[trigger] self.active[i]
        &&& forall|i: int| self.unpolled <= i < self.len ==> !#[trigger] self.order.contains(i)
    }

    /// The slots that were woken and not taken from the queue yet, in the order
    /// in which they were woken.
    pub open spec fn ready(self) -> Seq<int> {
        without(self.order, self.len)
    }

    /// Whether all links are made.
    pub open spec fn settled(self) -> bool {
        forall|k: int| 0 <= k < self.links.len() ==> #[trigger] self.links[k]
    }

    /// The state after the task that polls the futures was woken if it may have
    /// been waiting for that.
    pub open spec fn notified(self) -> Self {
        if self.parked {
            SlotState { parked: false, parent: None, ..self }
        } else {
            self
        }
    }

    /// The waker to wake once a slot is in the queue.
    pub open spec fn notification(self) -> Option<W> {
        if self.parked {
            self.parent
        } else {
            None
        }
    }

    /// The state after slot `i`, which was not in the queue, was put at its end,
    /// with or without a link to it.
    pub open spec fn appended(self, i: int, link: bool) -> Self {
        SlotState {
            queued: self.queued.update(i, true),
            order: self.order.push(i),
            links: self.links.push(link),
            ..self
        }
    }

    /// The state after slot `i` was woken.
    pub open spec fn woken(self, i: int) -> Self {
        if self.queued[i] {
            self
        } else {
            self.appended(i, true).notified()
        }
    }

    /// The state after the task that polls the futures has registered `waker` and has
    /// announced that it may wait for a wake-up.
    pub open spec fn announced(self, waker: W) -> Self {
        SlotState { parked: true, parent: Some(waker), ..self }
    }

    /// The state after the waker of the task was removed.
    pub open spec fn closed(self) -> Self {
        SlotState { parent: None, ..self }
    }

    /// The state after the future of slot `i` has completed.
    pub open spec fn completed(self, i: int) -> Self {
        SlotState {
            queued: self.queued.update(i, true),
            active: self.active.update(i, false),
            ..self
        }
    }

    /// The state once the future of slot `i` is to be polled, unless it or one
    /// behind it was polled before: a wake-up from now on enqueues the slot.
    pub open spec fn started(self, i: int) -> Self {
        if self.unpolled <= i {
            SlotState {
                unpolled: i + 1,
                queued: self.queued.update(i, false),
                active: self.active.update(i, true),
                ..self
            }
        } else {
            self
        }
    }

    /// Whether `after` is left when the first slots in the queue, those in `gone`,
    /// have been taken.
    pub open spec fn taken(self, after: Self, gone: Seq<int>) -> bool {
        &&& self.ready() == gone + after.ready()
        &&& after.len == self.len
        &&& after.unpolled == self.unpolled
        &&& after.parked == self.parked
        &&& after.parent == self.parent
        &&& self.settled() ==> after.settled()
    }

    /// Whether looking for a slot to poll, past those in `skipped`, whose futures
    /// have completed, has given `result` and led to `after`.
    pub open spec fn moved_on(
        self,
        after: Self,
        result: Dequeue,
        skipped: Seq<int>,
        pending: Seq<bool>,
    ) -> bool {
        &&& forall|k: int|
            0 <= k < skipped.len() ==> 0 <= #[trigger] skipped[k] < self.len
                && !pending[skipped[k]]
        &&& after.active.len() == self.active.len()
        &&& forall|j: int|
            0 <= j < self.len ==> #[trigger] after.active[j] == (result == Dequeue::Data(j as usize)
                || (self.active[j] && !skipped.contains(j)))
        &&& match result {
            Dequeue::Data(i) => {
                &&& i < self.len
                &&& pending[i as int]
                &&& self.taken(after, skipped.push(i as int))
                &&& after.queued == self.queued.update(i as int, false)
                &&& !after.order.contains(i as int)
            },
            _ => {
                &&& self.taken(after, skipped)
                &&& after.queued == self.queued
                &&& after.dequeued() == result
                &&& result is Inconsistent ==> after.ready().len() > 0
                &&& self.settled() ==> result is Empty && after.ready().len() == 0
            },
        }
    }

    /// Whether looking for a slot to poll, past those in `skipped`, whose futures have
    /// completed, has left the queue empty and led to `after`.
    pub open spec fn found_none(self, after: Self, skipped: Seq<int>, pending: Seq<bool>) -> bool {
        self.moved_on(after, Dequeue::Empty, skipped, pending) && after.ready().len() == 0
    }

    /// Whether looking for a slot to poll has given `result` and led to `after`.
    pub open spec fn looked(self, after: Self, result: Dequeue, pending: Seq<bool>) -> bool {
        exists|skipped: Seq<int>| #[trigger]
            self.moved_on(after, result, skipped, pending)
    }

    /// Whether looking for a slot to poll has left the queue empty, and registering `waker`
    /// has led to `after`.
    pub open spec fn looked_in_vain(self, after: Self, waker: W, pending: Seq<bool>) -> bool {
        exists|between: Self, skipped: Seq<int>| #[trigger]
            self.found_none(between, skipped, pending) && after == between.announced(waker)
    }

    /// Whether `slot` comes right after `previous` in the queue.
    pub open spec fn next_to(self, previous: int, slot: int) -> bool {
        let at = self.order.index_of(previous);
        self.order.contains(previous) && at + 1 < self.order.len() && self.order[at + 1] == slot
    }

    /// The state after the link from `previous` to the next slot was made.
    pub open spec fn linked(self, previous: int) -> Self {
        SlotState { links: self.links.update(self.order.index_of(previous), true), ..self }
    }

    /// The state after the first `n` slots have left the queue.
    pub open spec fn skip(self, n: int) -> Self {
        SlotState { order: self.order.skip(n), links: self.links.skip(n), ..self }
    }

    /// The position of the first slot in the queue that has a future.
    pub open spec fn front(self) -> int {
        if self.order[0] == self.len {
            1
        } else {
            0
        }
    }

    /// What taking a slot from the queue gives.
    pub open spec fn dequeued(self) -> Dequeue {
        let k = self.front();
        if k == 1 && (self.order.len() == 1 || !self.links[0]) {
            Dequeue::Empty
        } else if k == self.order.len() - 1 || self.links[k] {
            Dequeue::Data(self.order[k] as usize)
        } else {
            Dequeue::Inconsistent
        }
    }

    /// The state after taking a slot from the queue.
    pub open spec fn after_dequeue(self) -> Self {
        let k = self.front();
        match self.dequeued() {
            Dequeue::Empty => self,
            Dequeue::Inconsistent => self.skip(k),
            Dequeue::Data(_) => if k == self.order.len() - 1 {
                SlotState { order: seq![self.len], links: Seq::empty(), ..self }
            } else {
                self.skip(k + 1)
            },
        }
    }
}

proof fn lemma_without_first(x: int, rest: Seq<int>, stub: int)
    ensures
        without(seq![x] + rest, stub) == (if x == stub {
            without(rest, stub)
        } else {
            seq![x] + without(rest, stub)
        }),
    decreases rest.len(),
{
    let all = seq![x] + rest;
    if rest.len() == 0 {
        assert(without(all.drop_last(), stub) =~= Seq::empty());
    } else {
        assert(all.drop_last() =~= seq![x] + rest.drop_last());
        lemma_without_first(x, rest.drop_last(), stub);
    }
}

proof fn lemma_without_last(order: Seq<int>, x: int, stub: int)
    ensures
        without(order.push(x), stub) == (if x == stub {
            without(order, stub)
        } else {
            without(order, stub).push(x)
        }),
{
    assert(order.push(x).drop_last() =~= order);
}

proof fn lemma_push_contains(order: Seq<int>, x: int)
    ensures
        forall|i: int| #[trigger] order.push(x).contains(i) <==> order.contains(i) || i == x,
{
    assert forall|i: int| #[trigger] order.push(x).contains(i) <==> order.contains(i) || i == x by {
        if order.contains(i) {
            let k = order.index_of(i);
            assert(order.push(x)[k] == i);
        }
        if i == x {
            assert(order.push(x)[order.len() as int] == i);
        }
    }
}

proof fn lemma_without_no_duplicates(order: Seq<int>, stub: int)
    requires
        order.no_duplicates(),
    ensures
        without(order, stub).no_duplicates(),
    decreases order.len(),
{
    if order.len() > 0 {
        let rest = order.drop_last();
        lemma_without_no_duplicates(rest, stub);
        lemma_without_contains(rest, stub, order.last());
        assert(!rest.contains(order.last()));
    }
}

proof fn lemma_without_contains(order: Seq<int>, stub: int, i: int)
    ensures
        without(order, stub).contains(i) <==> order.contains(i) && i != stub,
    decreases order.len(),
{
    if order.len() > 0 {
        let rest = order.drop_last();
        lemma_without_contains(rest, stub, i);
        assert(order =~= rest.push(order.last()));
        lemma_push_contains(rest, order.last());
        lemma_push_contains(without(rest, stub), order.last());
    }
}

impl<W> SlotState<W> {
    /// The stub is at the head only of an empty queue.
    proof fn lemma_idle(self)
        requires
            self.wf(),
        ensures
            self.ready().len() == 0 <==> self.order.last() == self.len,
    {
        if self.order.last() == self.len {
            assert(without(self.order.drop_last(), self.len) =~= Seq::empty());
        }
    }

    /// Taking from the queue takes its first slot, or nothing. Where all links
    /// are made, it takes nothing only from an empty queue.
    pub proof fn lemma_dequeue(self)
        requires
            self.queue_wf(),
        ensures
            self.after_dequeue().queue_wf(),
            match self.dequeued() {
                Dequeue::Data(i) => {
                    &&& i < self.len
                    &&& self.order.contains(i as int)
                    &&& self.ready() == seq![i as int] + self.after_dequeue().ready()
                    &&& forall|j: int|
                        0 <= j < self.len ==> (#[trigger] self.after_dequeue().order.contains(j)
                            <==> self.order.contains(j) && j != i)
                },
                _ => {
                    &&& self.after_dequeue().ready() == self.ready()
                    &&& self.after_dequeue().dequeued() == self.dequeued()
                    &&& self.dequeued() is Inconsistent ==> self.ready().len() > 0
                    &&& forall|j: int|
                        0 <= j < self.len ==> (#[trigger] self.after_dequeue().order.contains(j)
                            <==> self.order.contains(j))
                },
            },
            self.settled() ==> {
                &&& self.after_dequeue().settled()
                &&& self.dequeued() !is Inconsistent
                &&& self.dequeued() is Empty <==> self.ready().len() == 0
            },
    {
        let after = self.after_dequeue();
        let order = self.order;
        let stub = self.len;
        assert(order =~= seq![order[0]] + order.skip(1));
        lemma_without_first(order[0], order.skip(1), stub);
        if order.len() > 1 {
            assert(order.skip(1) =~= seq![order[1]] + order.skip(2));
            lemma_without_first(order[1], order.skip(2), stub);
        }
        assert(order.skip(0) =~= order);
        lemma_without_first(stub, Seq::empty(), stub);
        assert forall|n: int, j: int|
            0 <= n < order.len() implies (#[trigger] order.skip(n).contains(j) <==> exists|k: int|
            n <= k < order.len() && order[k] == j) by {
            if order.skip(n).contains(j) {
                let k = order.skip(n).index_of(j);
            }
            if exists|k: int| n <= k < order.len() && order[k] == j {
                let k = choose|k: int| n <= k < order.len() && order[k] == j;
                assert(order.skip(n)[k - n] == j);
            }
        }
    }
}

/// The state after the slots of `wakes` were woken, one after the other.
pub open spec fn woken_all<W>(state: SlotState<W>, wakes: Seq<int>) -> SlotState<W>
    decreases wakes.len(),
{
    if wakes.len() == 0 {
        state
    } else {
        woken_all(state, wakes.drop_last()).woken(wakes.last())
    }
}

impl<W> SlotState<W> {
    /// No slot is in the queue twice.
    pub proof fn lemma_no_duplicates(self)
        requires
            self.wf(),
        ensures
            self.ready().no_duplicates(),
            forall|i: int|
                0 <= i < self.len ==> (#[trigger] self.ready().contains(i) <==> self.order.contains(
                    i,
                )),
    {
        lemma_without_no_duplicates(self.order, self.len);
        assert forall|i: int| 0 <= i < self.len implies (#[trigger] self.ready().contains(i)
            <==> self.order.contains(i)) by {
            lemma_without_contains(self.order, self.len, i);
        }
    }

    /// A wake-up of a future that was polled and has not completed is recorded:
    /// its slot is in the queue afterwards, behind those that were in it before.
    /// Nothing else in the queue changes.
    pub proof fn lemma_wake_recorded(self, i: int)
        requires
            self.wf(),
            0 <= i < self.len,
        ensures
            self.woken(i).wf(),
            self.woken(i).queued[i],
            self.active[i] ==> self.woken(i).ready().contains(i),
            self.woken(i).ready() == (if self.queued[i] {
                self.ready()
            } else {
                self.ready().push(i)
            }),
            self.settled() ==> self.woken(i).settled(),
            self.woken(i).active == self.active,
            self.woken(i).len == self.len,
    {
        let after = self.woken(i);
        lemma_without_contains(self.order, self.len, i);
        if !self.queued[i] {
            lemma_push_contains(self.order, i);
            lemma_without_last(self.order, i, self.len);
            lemma_push_contains(self.ready(), i);
            assert(after.order.no_duplicates());
        }
    }

    /// A slot that is put in the queue is in it before the link to it is made.
    pub proof fn lemma_start_wake(self, i: int)
        requires
            self.wf(),
            0 <= i < self.len,
            !self.queued[i],
        ensures
            self.appended(i, false).wf(),
            self.appended(i, false).ready() == self.ready().push(i),
    {
        let after = self.appended(i, false);
        lemma_push_contains(self.order, i);
        lemma_without_last(self.order, i, self.len);
    }

    /// A wake-up does nothing while the slot is in the queue, before its future
    /// is polled for the first time, and after its future has completed.
    pub proof fn lemma_wake_without_effect(self, i: int)
        requires
            self.wf(),
            0 <= i < self.len,
            !self.active[i] || self.ready().contains(i),
        ensures
            self.woken(i) == self,
    {
        lemma_without_contains(self.order, self.len, i);
    }

    /// Waking a slot twice does what waking it once does.
    pub proof fn lemma_wake_twice(self, i: int)
        requires
            self.wf(),
            0 <= i < self.len,
        ensures
            self.woken(i).woken(i) == self.woken(i),
    {
    }

    /// A wake-up is not missed: where the queue is empty and the task that polls
    /// the futures has announced that it may wait, waking a future that was polled
    /// and has not completed wakes that task, and hands out its waker, so that it
    /// is woken once.
    pub proof fn lemma_wake_not_missed(self, i: int)
        requires
            self.wf(),
            self.parked,
            self.ready().len() == 0,
            0 <= i < self.len,
            self.active[i],
        ensures
            !self.queued[i],
            self.notification() == self.parent,
            !self.woken(i).parked,
            self.woken(i).parent is None,
            self.woken(i).ready() == seq![i],
    {
        lemma_without_contains(self.order, self.len, i);
        lemma_without_last(self.order, i, self.len);
    }

    /// Whatever wake-ups come one after the other, all those of futures that were
    /// polled and have not completed are recorded, what was recorded before stays
    /// first, and a task that may be waiting is woken by the first of them.
    pub proof fn lemma_wakes_recorded(self, wakes: Seq<int>)
        requires
            self.wf(),
            forall|k: int| 0 <= k < wakes.len() ==> 0 <= #[trigger] wakes[k] < self.len,
        ensures
            woken_all(self, wakes).wf(),
            woken_all(self, wakes).active == self.active,
            woken_all(self, wakes).len == self.len,
            self.ready().is_prefix_of(woken_all(self, wakes).ready()),
            forall|k: int|
                0 <= k < wakes.len() && self.active[#[trigger] wakes[k]] ==> woken_all(
                    self,
                    wakes,
                ).ready().contains(wakes[k]),
            woken_all(self, wakes).parked ==> self.parked && woken_all(self, wakes).ready()
                == self.ready() && woken_all(self, wakes).parent == self.parent,
        decreases wakes.len(),
    {
        if wakes.len() > 0 {
            let earlier = wakes.drop_last();
            let i = wakes[wakes.len() - 1];
            self.lemma_wakes_recorded(earlier);
            let before = woken_all(self, earlier);
            let after = woken_all(self, wakes);
            before.lemma_wake_recorded(i);
            lemma_push_contains(before.ready(), i);
            assert forall|k: int|
                0 <= k < wakes.len() && self.active[#[trigger] wakes[k]] implies after.ready().contains(
            wakes[k]) by {
                if k < earlier.len() {
                    assert(earlier[k] == wakes[k]);
                }
            }
        }
    }

    /// Only a future that was woken is taken from the queue, to be polled again, and
    /// every other that was woken and has not completed stays in the queue.
    pub proof fn lemma_only_woken_polled(
        self,
        after: Self,
        result: Dequeue,
        skipped: Seq<int>,
        pending: Seq<bool>,
    )
        requires
            self.wf(),
            self.moved_on(after, result, skipped, pending),
        ensures
            result matches Dequeue::Data(i) ==> self.ready().contains(i as int),
            forall|j: int|
                0 <= j < self.len && self.ready().contains(j) && #[trigger] pending[j] ==> result
                    == Dequeue::Data(j as usize) || after.ready().contains(j),
    {
        if let Dequeue::Data(i) = result {
            let k = skipped.len() as int;
            assert(self.ready()[k] == (skipped.push(i as int) + after.ready())[k]);
        }
        let gone = match result {
            Dequeue::Data(i) => skipped.push(i as int),
            _ => skipped,
        };
        assert forall|j: int|
            0 <= j < self.len && self.ready().contains(j) && #[trigger] pending[j] implies result
            == Dequeue::Data(j as usize) || after.ready().contains(j) by {
            let k = self.ready().index_of(j);
            if k < skipped.len() {
            } else if k >= gone.len() {
            }
        }
    }

    /// Polling a future for the first time changes nothing in the queue, and from
    /// then on wake-ups of it are recorded.
    pub proof fn lemma_started(self, i: int)
        requires
            self.wf(),
            self.unpolled <= i < self.len,
        ensures
            self.started(i).wf(),
            self.started(i).ready() == self.ready(),
            self.started(i).woken(i).ready() == self.ready().push(i),
    {
        let after = self.started(i);
        after.lemma_wake_recorded(i);
    }

    /// A slot whose future has completed is not enqueued again.
    pub proof fn lemma_completed_stays_out(self, i: int)
        requires
            self.wf(),
            0 <= i < self.len,
        ensures
            self.completed(i).wf(),
            self.completed(i).woken(i) == self.completed(i),
            self.completed(i).ready() == self.ready(),
    {
    }

    /// Enqueueing a slot in two steps does what doing it at once does, and until
    /// the second step is made nothing in the queue is lost.
    pub proof fn lemma_wake_in_steps(self, i: int)
        requires
            self.wf(),
            0 <= i < self.len,
            !self.queued[i],
        ensures
            self.appended(i, false).next_to(self.order.last(), i),
            self.appended(i, false).linked(self.order.last()).notified() == self.woken(i),
            self.appended(i, false).ready() == self.ready().push(i),
    {
        let between = self.appended(i, false);
        let at = between.order.len() - 2;
        assert(between.order[at] == self.order.last());
        assert(between.order.no_duplicates());
        assert(between.links.update(at, true) =~= self.links.push(true));
        lemma_without_last(self.order, i, self.len);
    }
}

/// The slots of a fixed number of futures, the queue of the slots that were
/// woken, and the waker of the task that polls the futures.
#[verifier::reject_recursive_types(W)]
pub struct Inner<W> {
    /// The waker of the task that polls the futures.
    parent: Option<W>,
    /// Whether the task that polls the futures may be waiting for a wake-up, in
    /// which case enqueueing a slot must wake `parent`.
    parked: bool,
    /// The last slot of the queue.
    head: usize,
    /// The first slot of the queue.
    tail: usize,
    /// The slots of the futures, and after them the stub.
    slots: Vec<Slot>,
    len: usize,
    /// The index from which on no future has been polled.
    unpolled: usize,
    order: Ghost<Seq<int>>,
    active: Ghost<Seq<bool>>,
}

impl<W> View for Inner<W> {
    type V = SlotState<W>;

    closed spec fn view(&self) -> SlotState<W> {
        SlotState {
            len: self.len as int,
            unpolled: self.unpolled as int,
            order: self.order@,
            links: Seq::new(
                (self.order@.len() - 1) as nat,
                |k: int| self.slots@[self.order@[k]].next is Some,
            ),
            queued: Seq::new(self.len as nat, |i: int| self.slots@[i].queued),
            active: self.active@,
            parked: self.parked,
            parent: self.parent,
        }
    }
}

impl<W> Inner<W> {
    /// Whether the slots and the queue are in order.
    pub closed spec fn wf(&self) -> bool {
        self@.wf() && self.queue_wf()
    }

    /// Slots and a queue that are in order are in a possible state.
    pub proof fn lemma_state(&self)
        requires
            self.wf(),
        ensures
            self@.wf(),
    {
    }

    /// Whether the links lead from the tail through the queue to the head.
    closed spec fn queue_wf(&self) -> bool {
        let order = self.order@;
        &&& self@.queue_wf()
        &&& self.slots@.len() == self.len + 1
        &&& order[0] == self.tail
        &&& order.last() == self.head
        &&& self.slots@[self.head as int].next is None
        &&& forall|k: int|
            0 <= k < order.len() - 1 ==> ((#[trigger] self.slots@[order[k]]).next matches Some(next)
                ==> next == order[k + 1])
    }

    /// Creates the slots for `len` futures.
    pub fn new(len: usize) -> (inner: Self)
        requires
            len < usize::MAX,
        ensures
            inner.wf(),
            inner@ == SlotState::<W>::initial(len as int),
    {
        let mut slots: Vec<Slot> = Vec::new();
        while slots.len() < len + 1
            invariant
                len < usize::MAX,
                slots.len() <= len + 1,
                forall|i: int|
                    0 <= i < slots.len() ==> (#[trigger] slots@[i]).queued && slots@[i].next is None,
            decreases len + 1 - slots.len(),
        {
            slots.push(Slot { next: None, queued: true });
        }
        let ghost order = seq![len as int];
        let ghost active = Seq::new(len as nat, |i: int| false);
        let inner: Inner<W> = Inner {
            parent: None,
            parked: false,
            head: len,
            tail: len,
            slots,
            len,
            unpolled: 0,
            order: Ghost(order),
            active: Ghost(active),
        };
        proof {
            assert(inner@.links =~= Seq::empty());
            assert(inner@.queued =~= Seq::new(len as nat, |i: int| true));
        }
        inner
    }

    fn stub(&self) -> (stub: usize)
        ensures
            stub == self@.len,
    {
        self.len
    }

    /// Puts `slot` at the head of the queue, and returns the slot before it,
    /// which has no link to it yet.
    fn swap_head(&mut self, slot: usize) -> (previous: usize)
        requires
            old(self).queue_wf(),
            slot <= old(self)@.len,
            !old(self)@.order.contains(slot as int),
        ensures
            final(self).queue_wf(),
            final(self)@ == (SlotState {
                order: old(self)@.order.push(slot as int),
                links: old(self)@.links.push(false),
                ..old(self)@
            }),
            previous == old(self)@.order.last(),
    {
        let ghost order = self.order@;
        let queued: bool = self.slots[slot].queued;
        self.slots.set(slot, Slot { next: None, queued });
        let previous: usize = self.head;
        self.head = slot;
        proof {
            self.order = Ghost(order.push(slot as int));
            assert(self@.links =~= old(self)@.links.push(false));
            assert(self@.queued =~= old(self)@.queued);
        }
        previous
    }

    /// Makes the link from `previous` to `slot`, the next one in the queue.
    fn link(&mut self, previous: usize, slot: usize)
        requires
            old(self).queue_wf(),
            old(self)@.next_to(previous as int, slot as int),
        ensures
            final(self).queue_wf(),
            final(self)@ == old(self)@.linked(previous as int),
    {
        let ghost order = self.order@;
        let ghost at = order.index_of(previous as int);
        let queued: bool = self.slots[previous].queued;
        self.slots.set(previous, Slot { next: Some(slot), queued });
        proof {
            assert(self@.links =~= old(self)@.links.update(at, true));
            assert(self@.queued =~= old(self)@.queued);
        }
    }

    /// Appends `slot` to the queue.
    fn enqueue(&mut self, slot: usize)
        requires
            old(self).queue_wf(),
            slot <= old(self)@.len,
            !old(self)@.order.contains(slot as int),
        ensures
            final(self).queue_wf(),
            final(self)@ == (SlotState {
                order: old(self)@.order.push(slot as int),
                links: old(self)@.links.push(true),
                ..old(self)@
            }),
    {
        let previous: usize = self.swap_head(slot);
        proof {
            let order = self@.order;
            let at = order.len() - 2;
            assert(order[at] == previous && order[at + 1] == slot);
            assert(self@.links.update(at, true) =~= old(self)@.links.push(true));
        }
        self.link(previous, slot);
    }

    /// Takes the first slot from the queue.
    fn dequeue(&mut self) -> (result: Dequeue)
        requires
            old(self).queue_wf(),
        ensures
            final(self).queue_wf(),
            result == old(self)@.dequeued(),
            final(self)@ == old(self)@.after_dequeue(),
    {
        proof {
            self@.lemma_dequeue();
        }
        let ghost order = self.order@;
        let ghost links = self@.links;
        let mut tail: usize = self.tail;
        let mut next: Option<usize> = self.slots[tail].next;
        assert(order.skip(0) =~= order && links.skip(0) =~= links);

        if tail == self.stub() {
            match next {
                None => {
                    return Dequeue::Empty;
                },
                Some(slot) => {
                    self.tail = slot;
                    tail = slot;
                    next = self.slots[slot].next;
                    proof {
                        self.order = Ghost(order.skip(1));
                        assert(self@.links =~= links.skip(1));
                    }
                },
            }
        }
        let ghost middle = self.order@;

        if let Some(slot) = next {
            self.tail = slot;
            proof {
                self.order = Ghost(middle.skip(1));
                assert(self@.links =~= links.skip(old(self)@.front() + 1));
                assert(self@.order =~= order.skip(old(self)@.front() + 1));
            }
            return Dequeue::Data(tail);
        }

        if self.head != tail {
            return Dequeue::Inconsistent;
        }

        let stub: usize = self.stub();
        self.enqueue(stub);

        match self.slots[tail].next {
            Some(slot) => {
                self.tail = slot;
                proof {
                    self.order = Ghost(self.order@.skip(1));
                    assert(self@.order =~= seq![stub as int]);
                    assert(self@.links =~= Seq::empty());
                }
                Dequeue::Data(tail)
            },
            None => {
                assert(self@.links[0]);
                Dequeue::Inconsistent
            },
        }
    }

    /// Puts slot `index` at the head of the queue unless waking it does nothing.
    /// Returns the slot before it in the queue, to which the link to it is to be
    /// added by `finish_wake`.
    pub fn start_wake(&mut self, index: usize) -> (previous: Option<usize>)
        requires
            old(self).wf(),
            index < old(self)@.len,
        ensures
            final(self).wf(),
            old(self)@.queued[index as int] ==> previous is None && final(self)@ == old(self)@,
            !old(self)@.queued[index as int] ==> {
                &&& previous == Some(old(self)@.order.last() as usize)
                &&& final(self)@ == old(self)@.appended(index as int, false)
                &&& final(self)@.next_to(old(self)@.order.last(), index as int)
            },
    {
        assert(self@.queued[index as int] == self.slots@[index as int].queued);
        if self.slots[index].queued {
            return None;
        }
        let next: Option<usize> = self.slots[index].next;
        self.slots.set(index, Slot { next, queued: true });
        proof {
            assert(self@.queued =~= old(self)@.queued.update(index as int, true));
            assert(self@.links =~= old(self)@.links);
        }
        let previous: usize = self.swap_head(index);
        proof {
            lemma_push_contains(old(self)@.order, index as int);
        }
        Some(previous)
    }

    /// Adds the link to slot `index` that `start_wake` has left to be made.
    /// Returns the waker to wake: the one of the task that polls the futures, if
    /// that task may be waiting for a wake-up.
    pub fn finish_wake(&mut self, previous: usize, index: usize) -> (parent: Option<W>)
        requires
            old(self).wf(),
            old(self)@.next_to(previous as int, index as int),
        ensures
            final(self).wf(),
            final(self)@ == old(self)@.linked(previous as int).notified(),
            parent == old(self)@.notification(),
    {
        self.link(previous, index);
        self.notify()
    }

    fn notify(&mut self) -> (parent: Option<W>)
        requires
            old(self).queue_wf(),
        ensures
            final(self).queue_wf(),
            final(self)@ == old(self)@.notified(),
            parent == old(self)@.notification(),
    {
        if self.parked {
            self.parked = false;
            let parent: Option<W> = self.parent.take();
            parent
        } else {
            None
        }
    }

    /// Wakes slot `index`. Returns the waker to wake: the one of the task that
    /// polls the futures, if the slot was put in the queue and that task may be
    /// waiting for a wake-up.
    pub fn wake_by_ref(&mut self, index: usize) -> (parent: Option<W>)
        requires
            old(self).wf(),
            index < old(self)@.len,
        ensures
            final(self).wf(),
            final(self)@ == old(self)@.woken(index as int),
            parent == (if old(self)@.queued[index as int] {
                None
            } else {
                old(self)@.notification()
            }),
    {
        match self.start_wake(index) {
            None => None,
            Some(previous) => {
                proof {
                    let order = self@.order;
                    let at = order.len() - 2;
                    assert(self@.links.update(at, true) =~= old(self)@.links.push(true));
                }
                self.finish_wake(previous, index)
            },
        }
    }

    /// Makes wake-ups of slot `index` enqueue it from now on, as its future is to be
    /// polled for the first time. Does nothing if it or one behind it was polled
    /// before.
    pub fn start(&mut self, index: usize)
        requires
            old(self).wf(),
            index < old(self)@.len,
        ensures
            final(self).wf(),
            final(self)@ == old(self)@.started(index as int),
    {
        if self.unpolled <= index {
            proof {
                self@.lemma_started(index as int);
            }
            let next: Option<usize> = self.slots[index].next;
            self.slots.set(index, Slot { next, queued: false });
            self.unpolled = index + 1;
            proof {
                self.active = Ghost(self.active@.update(index as int, true));
                assert(self@.links =~= old(self)@.links);
                assert(self@.queued =~= old(self)@.queued.update(index as int, false));
            }
        }
    }

    /// Returns the first slot in the queue whose future has not completed. Its flag
    /// is cleared, so that a wake-up from now on enqueues it.
    pub fn next<T: PollElem>(&mut self, elems: &Vec<T>) -> (result: Dequeue)
        requires
            old(self).wf(),
            elems.len() == old(self)@.len,
        ensures
            final(self).wf(),
            exists|skipped: Seq<int>| #[trigger]
                old(self)@.moved_on(final(self)@, result, skipped, pending_flags(elems@)),
    {
        let ghost pending = pending_flags(elems@);
        let ghost mut skipped: Seq<int> = Seq::empty();
        loop
            invariant
                self.wf(),
                elems.len() == self@.len,
                pending == pending_flags(elems@),
                old(self)@.taken(self@, skipped),
                self@.queued == old(self)@.queued,
                old(self)@.active.len() == self@.len,
                forall|j: int|
                    0 <= j < self@.len ==> #[trigger] self@.active[j] == (old(self)@.active[j]
                        && !skipped.contains(j)),
                forall|k: int|
                    0 <= k < skipped.len() ==> 0 <= #[trigger] skipped[k] < self@.len
                        && !pending[skipped[k]],
            decreases self@.ready().len(),
        {
            let ghost before = self@;
            proof {
                before.lemma_dequeue();
            }
            let result: Dequeue = self.dequeue();
            let index: usize = match result {
                Dequeue::Data(slot) => slot,
                _ => {
                    proof {
                        self@.lemma_dequeue();
                        assert(old(self)@.moved_on(self@, result, skipped, pending));
                    }
                    return result;
                },
            };
            let ghost between = self@;

            // A slot may be dequeued after its future has completed, if it was
            // woken during or after its last poll.
            if !elems[index].is_pending() {
                proof {
                    self.active = Ghost(self.active@.update(index as int, false));
                    assert(skipped + before.ready() =~= skipped.push(index as int) + self@.ready());
                    lemma_push_contains(skipped, index as int);
                    skipped = skipped.push(index as int);
                }
                continue ;
            }
            // Clear the flag before polling, so that a wake-up during the poll
            // enqueues the slot.
            let next: Option<usize> = self.slots[index].next;
            self.slots.set(index, Slot { next, queued: false });
            proof {
                self.active = Ghost(self.active@.update(index as int, true));
                assert(self@.links =~= between.links);
                assert(self@.queued =~= between.queued.update(index as int, false));
                assert(skipped + before.ready() =~= skipped.push(index as int) + self@.ready());
                assert(old(self)@.moved_on(self@, Dequeue::Data(index), skipped, pending));
            }
            return Dequeue::Data(index);
        }
    }

    /// Makes later wake-ups of slot `index`, whose future has completed, do
    /// nothing.
    pub fn complete(&mut self, index: usize)
        requires
            old(self).wf(),
            index < old(self)@.len,
        ensures
            final(self).wf(),
            final(self)@ == old(self)@.completed(index as int),
    {
        let next: Option<usize> = self.slots[index].next;
        self.slots.set(index, Slot { next, queued: true });
        proof {
            self.active = Ghost(self.active@.update(index as int, false));
            assert(self@.links =~= old(self)@.links);
            assert(self@.queued =~= old(self)@.queued.update(index as int, true));
        }
    }

    /// Returns whether waking slot `index` does nothing: for a slot whose future
    /// was just polled and has not completed, whether it was woken meanwhile.
    pub fn was_woken(&self, index: usize) -> (woken: bool)
        requires
            self.wf(),
            index < self@.len,
        ensures
            woken == self@.queued[index as int],
    {
        self.slots[index].queued
    }

    /// Registers the waker of the task that polls the futures, and announces that
    /// that task may wait for a wake-up. Returns the waker registered before.
    pub fn park(&mut self, waker: W) -> (previous: Option<W>)
        requires
            old(self).wf(),
        ensures
            final(self).wf(),
            final(self)@ == old(self)@.announced(waker),
            previous == old(self)@.parent,
    {
        let previous: Option<W> = self.parent.take();
        self.parent = Some(waker);
        self.parked = true;
        previous
    }

    /// Returns whether no slot is in the queue, not even one that the link to is
    /// missing.
    pub fn is_idle(&self) -> (idle: bool)
        requires
            self.wf(),
        ensures
            idle == (self@.ready().len() == 0),
    {
        proof {
            self@.lemma_idle();
        }
        self.head == self.stub()
    }

    /// Removes the waker of the task that polls the futures, so that that task is
    /// not woken any more.
    pub fn take_parent(&mut self) -> (parent: Option<W>)
        requires
            old(self).wf(),
        ensures
            final(self).wf(),
            final(self)@ == old(self)@.closed(),
            parent == old(self)@.parent,
    {
        let parent: Option<W> = self.parent.take();
        parent
    }
}

} // verus!
