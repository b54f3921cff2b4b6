//! Polling of many futures such that only the ones that were woken are polled.
//!
//! The futures are split into groups of `GROUP_SIZE`, and each group gets a
//! waker, so that a wake-up only causes the futures in the woken group to be
//! polled. The woken groups are recorded in a [`ReadySet`], which stands behind a lock
//! that the task and the wakers share. What is done to it is stated over the exchanges of
//! its contents: what the lock held when it was taken, and what it was left holding.
use crate::budget::Budget;
use crate::group_handshake;
use crate::group_ledger;
use crate::group_ledger::{GroupLedger, GroupNote, GuardedGroups};
use crate::ledger;
use crate::maybe_done;
use crate::maybe_done::PollElem;
use crate::progress;
use crate::progress::{Gives, PollEvent, Progress};
use crate::ready_set;
use crate::ready_set::ReadySet;
use crate::slot_wakers;
use crate::task;
use crate::waking::Call;
use std::sync::Arc;
use std::task::{Context, Poll, Waker};
use vstd::prelude::*;
use vstd::rwlock::{RwLock, RwLockPredicate, WriteHandle};
use vstd::std_specs::iter::IteratorSpec;

verus! {

/// The number of futures that share a waker.
pub const GROUP_SIZE: usize = 8;

/// The number of groups that `len` elements are split into.
pub open spec fn group_count(len: int) -> int {
    (len + GROUP_SIZE - 1) / (GROUP_SIZE as int)
}

/// The state that a task and the wakers of its groups share.
#[verifier::reject_recursive_types(W)]
pub ghost struct SharedState<W> {
    /// For each group, whether it was woken.
    pub ready: Seq<bool>,
    /// Whether the task that polls the futures may be waiting for a wake-up.
    pub parked: bool,
    /// The waker of the task that polls the futures.
    pub parent: Option<W>,
    /// The group that is being polled, unless it was woken meanwhile.
    pub polling: Option<int>,
}

/// What is done at once to what a task and the wakers of its groups share.
#[verifier::reject_recursive_types(W)]
pub ghost enum Act<W> {
    /// A group is woken.
    Wake(int),
    /// The woken groups are taken.
    Take,
    /// Polling a group begins.
    Begin(int),
    /// Polling a group has ended.
    Finish,
    /// No group is woken. So the task registers a waker, and announces that it may wait for
    /// a wake-up.
    Announce(W),
    /// Nothing is changed.
    Read,
    /// The waker of the task is removed.
    Close,
}

impl<W> SharedState<W> {
    /// None of as many groups as `count` is woken, and nobody waits.
    pub open spec fn initial(count: nat) -> Self {
        SharedState {
            ready: Seq::new(count, |g: int| false),
            parked: false,
            parent: None,
            polling: None,
        }
    }

    /// Whether doing `act` leads to `after`.
    pub open spec fn done(self, act: Act<W>, after: Self) -> bool {
        match act {
            Act::Wake(group) => 0 <= group < self.ready.len() && after == self.woken(group),
            Act::Take => after == self.emptied(),
            Act::Begin(group) => after == self.begun(group),
            Act::Finish => after == self.finished(),
            Act::Announce(waker) => ready_set::none_set(self.ready) && after == self.announced(
                waker,
            ),
            Act::Read => after == self,
            Act::Close => after == self.closed(),
        }
    }

    /// Whether waking a group must wake the task that polls the futures: it may
    /// be waiting, and no group was woken yet.
    pub open spec fn notifies(self) -> bool {
        self.parked && ready_set::none_set(self.ready)
    }

    /// The state after the task that polls the futures has registered `waker` and has
    /// announced that it may wait for a wake-up.
    pub open spec fn announced(self, waker: W) -> Self {
        SharedState { parked: true, parent: Some(waker), ..self }
    }

    /// The waker that waking a group hands out, to be woken.
    pub open spec fn notification(self) -> Option<W> {
        if self.notifies() {
            self.parent
        } else {
            None
        }
    }

    /// The state after `group` was woken.
    pub open spec fn woken(self, group: int) -> Self {
        let ready = self.ready.update(group, true);
        let polling = if self.polling == Some(group) {
            None
        } else {
            self.polling
        };
        if self.notifies() {
            SharedState { ready, parked: false, parent: None, polling }
        } else {
            SharedState { ready, polling, ..self }
        }
    }

    /// The woken groups, in ascending order.
    pub open spec fn listed(self) -> Seq<usize> {
        ready_set::listing(self.ready, 0, self.ready.len() as int)
    }

    /// The state after the woken groups were taken.
    pub open spec fn emptied(self) -> Self {
        SharedState { ready: Seq::new(self.ready.len(), |g: int| false), ..self }
    }

    /// The state after polling `group` has begun.
    pub open spec fn begun(self, group: int) -> Self {
        SharedState { polling: Some(group), ..self }
    }

    /// The state after polling a group has ended.
    pub open spec fn finished(self) -> Self {
        SharedState { polling: None, ..self }
    }

    /// The state after the waker of the task was removed.
    pub open spec fn closed(self) -> Self {
        SharedState { parent: None, ..self }
    }
}

/// The state after the groups of `wakes` were woken, one after the other.
pub open spec fn woken_all<W>(state: SharedState<W>, wakes: Seq<int>) -> SharedState<W>
    decreases wakes.len(),
{
    if wakes.len() == 0 {
        state
    } else {
        woken_all(state, wakes.drop_last()).woken(wakes.last())
    }
}

impl<W> SharedState<W> {
    /// A wake-up is not missed: where no group was woken and the task that polls
    /// the futures has announced that it may wait, waking a group wakes that task.
    /// It hands out the waker, so that that task is woken once.
    pub proof fn lemma_wake_not_missed(self, group: int)
        requires
            self.parked,
            ready_set::none_set(self.ready),
            0 <= group < self.ready.len(),
        ensures
            self.notifies(),
            !self.woken(group).parked,
            self.woken(group).parent is None,
            self.woken(group).ready[group],
            !self.woken(group).notifies(),
    {
    }

    /// Whatever wake-ups come one after the other, all of them are recorded, none
    /// recorded before is lost, and a task that may be waiting when no group was
    /// woken is woken by the first of them.
    pub proof fn lemma_wakes_recorded(self, wakes: Seq<int>)
        requires
            forall|k: int| 0 <= k < wakes.len() ==> 0 <= #[trigger] wakes[k] < self.ready.len(),
        ensures
            woken_all(self, wakes).ready.len() == self.ready.len(),
            forall|g: int|
                0 <= g < self.ready.len() ==> (#[trigger] woken_all(self, wakes).ready[g]
                    <==> self.ready[g] || wakes.contains(g)),
            woken_all(self, wakes).parked == (self.parked && !(self.notifies() && wakes.len() > 0)),
            woken_all(self, wakes).parked ==> woken_all(self, wakes).parent == self.parent,
        decreases wakes.len(),
    {
        if wakes.len() > 0 {
            let earlier = wakes.drop_last();
            let group = wakes[wakes.len() - 1];
            self.lemma_wakes_recorded(earlier);
            let before = woken_all(self, earlier);
            let after = woken_all(self, wakes);
            assert forall|g: int| 0 <= g < self.ready.len() implies (#[trigger] after.ready[g]
                <==> self.ready[g] || wakes.contains(g)) by {
                if earlier.contains(g) {
                    let k = earlier.index_of(g);
                }
                if wakes.contains(g) && g != group {
                    let k = wakes.index_of(g);
                    assert(earlier[k] == g);
                }
            }
            if earlier.len() > 0 {
                assert(before.ready[earlier[0]]);
            }
        }
    }
}

/// The groups that were woken, and the waker of the task that polls the futures.
#[verifier::reject_recursive_types(W)]
pub struct Shared<W> {
    /// The waker of the task that polls the futures.
    parent: Option<W>,
    /// Whether the task that polls the futures may be waiting for a wake-up, in
    /// which case waking a group must wake `parent`.
    parked: bool,
    /// The groups that were woken.
    ready: ReadySet,
    /// The group that is being polled, unless it was woken meanwhile.
    polling: Option<usize>,
}

impl<W> View for Shared<W> {
    type V = SharedState<W>;

    closed spec fn view(&self) -> SharedState<W> {
        SharedState {
            ready: self.ready@,
            parked: self.parked,
            parent: self.parent,
            polling: match self.polling {
                Some(group) => Some(group as int),
                None => None,
            },
        }
    }
}

impl<W> Shared<W> {
    pub closed spec fn wf(&self) -> bool {
        self.ready.wf()
    }

    /// Nothing is woken and nobody waits.
    pub fn new(groups: usize) -> (shared: Self)
        requires
            groups + 64 <= usize::MAX,
        ensures
            shared.wf(),
            shared@.ready.len() >= groups,
            shared@ == SharedState::<W>::initial(shared@.ready.len()),
    {
        let shared: Shared<W> = Shared {
            parent: None,
            parked: false,
            ready: ReadySet::new(groups),
            polling: None,
        };
        assert(shared.ready@ =~= SharedState::<W>::initial(shared.ready@.len()).ready);
        shared
    }

    /// Wakes `group`. Returns the waker to wake: the one of the task that polls
    /// the futures, if that task may be waiting for a wake-up and no group was
    /// woken yet.
    pub fn wake_by_ref(&mut self, group: usize) -> (parent: Option<W>)
        requires
            old(self).wf(),
            group < old(self)@.ready.len(),
        ensures
            final(self).wf(),
            final(self)@ == old(self)@.woken(group as int),
            parent == old(self)@.notification(),
    {
        if let Some(polling) = self.polling {
            if polling == group {
                self.polling = None;
            }
        }
        if self.ready.insert(group) && self.parked {
            self.parked = false;
            self.parent.take()
        } else {
            None
        }
    }

    /// Appends the groups that were woken to `queue`, in ascending order, and
    /// forgets that they were.
    pub fn take_ready(&mut self, queue: &mut Vec<usize>)
        requires
            old(self).wf(),
        ensures
            final(self).wf(),
            final(self)@ == old(self)@.emptied(),
            final(queue)@ == old(queue)@ + old(self)@.listed(),
            old(self)@.ready.len() <= usize::MAX,
    {
        self.ready.take_all(queue);
        assert(self.ready@ =~= old(self)@.emptied().ready);
    }

    /// Records that polling `group` begins.
    pub fn begin(&mut self, group: usize)
        requires
            old(self).wf(),
        ensures
            final(self).wf(),
            final(self)@ == old(self)@.begun(group as int),
    {
        self.polling = Some(group);
    }

    /// Records that polling `group` has ended. Returns whether the group was woken since
    /// it began.
    pub fn finish(&mut self, group: usize) -> (woken: bool)
        requires
            old(self).wf(),
        ensures
            final(self).wf(),
            final(self)@ == old(self)@.finished(),
            woken == (old(self)@.polling != Some(group as int)),
    {
        let polling: Option<usize> = self.polling.take();
        match polling {
            Some(polling) => polling != group,
            None => true,
        }
    }

    /// Returns whether `group` was woken.
    pub fn is_ready(&self, group: usize) -> (ready: bool)
        requires
            self.wf(),
            group < self@.ready.len(),
        ensures
            ready == self@.ready[group as int],
    {
        self.ready.contains(group)
    }

    /// Registers the waker of the task that polls the futures, and announces that
    /// that task may wait for a wake-up. Returns the waker registered before.
    pub fn park(&mut self, waker: W) -> (previous: Option<W>)
        requires
            old(self).wf(),
        ensures
            final(self).wf(),
            final(self)@ == old(self)@.announced(waker),
            previous == old(self)@.parent,
    {
        let previous: Option<W> = self.parent.take();
        self.parent = Some(waker);
        self.parked = true;
        previous
    }

    /// Returns whether no group was woken.
    pub fn is_idle(&self) -> (idle: bool)
        requires
            self.wf(),
        ensures
            idle == ready_set::none_set(self@.ready),
    {
        self.ready.is_empty()
    }

    /// Removes the waker of the task that polls the futures, so that that task is
    /// not woken any more.
    pub fn take_parent(&mut self) -> (parent: Option<W>)
        requires
            old(self).wf(),
        ensures
            final(self).wf(),
            final(self)@ == old(self)@.closed(),
            parent == old(self)@.parent,
    {
        self.parent.take()
    }
}

/// What always holds of what a task and the wakers of its groups share: only
/// groups are recorded as woken, and `id` tells it from what others share.
pub ghost struct SharedPred {
    pub groups: usize,
    pub id: int,
}

impl RwLockPredicate<GuardedGroups> for SharedPred {
    open spec fn inv(self, shared: GuardedGroups) -> bool {
        &&& shared.wf()
        &&& shared.id() == self.id
        &&& shared@.ready.len() >= self.groups
        &&& forall|i: int| self.groups <= i < shared@.ready.len() ==> !#[trigger] shared@.ready[i]
    }
}

/// The lock that the woken groups stand behind.
pub type GroupLock = RwLock<GuardedGroups, SharedPred>;

/// Whether `lock` was taken, which then held `shared`.
spec fn taken_with(
    lock: GroupLock,
    shared: GuardedGroups,
    handle: WriteHandle<'_, GuardedGroups, SharedPred>,
) -> bool {
    call_ensures(GroupLock::acquire_write, (&lock,), (shared, handle))
}

/// Whether a lock that was taken was left holding `shared`.
spec fn left_with(
    handle: WriteHandle<'_, GuardedGroups, SharedPred>,
    shared: GuardedGroups,
) -> bool {
    call_ensures(
        WriteHandle::<'_, GuardedGroups, SharedPred>::release_write,
        (handle, shared),
        (),
    )
}

/// Whether `lock` was taken when what is shared was in the state `before`, and was left
/// when it was in the state `after`.
pub closed spec fn exchanged(
    lock: GroupLock,
    before: SharedState<Waker>,
    after: SharedState<Waker>,
) -> bool {
    exists|
        first: GuardedGroups,
        last: GuardedGroups,
        handle: WriteHandle<'_, GuardedGroups, SharedPred>,
    |
        {
            &&& #[trigger] taken_with(lock, first, handle)
            &&& #[trigger] left_with(handle, last)
            &&& first@ == before
            &&& last@ == after
            &&& exists|act: Act<Waker>| #[trigger] before.done(act, after)
        }
}

/// Exchanges each of which finds what the one before has left are a history of acts:
/// whatever is done to what is shared while the lock is held is one of them.
pub proof fn lemma_exchanges_are_acts(lock: GroupLock, states: Seq<SharedState<Waker>>) -> (acts: Seq<
    Act<Waker>,
>)
    requires
        states.len() > 0,
        forall|k: int|
            0 <= k < states.len() - 1 ==> exchanged(lock, #[trigger] states[k], states[k + 1]),
    ensures
        group_handshake::history(states, acts),
{
    let acts = Seq::new(
        (states.len() - 1) as nat,
        |k: int| choose|act: Act<Waker>| #[trigger] states[k].done(act, states[k + 1]),
    );
    assert forall|k: int| 0 <= k < acts.len() implies states[k].done(
        #[trigger] acts[k],
        states[k + 1],
    ) by {
        assert(exchanged(lock, states[k], states[k + 1]));
    }
    acts
}

/// Takes the lock.
fn take(lock: &GroupLock) -> (result: (
    GuardedGroups,
    WriteHandle<'_, GuardedGroups, SharedPred>,
))
    ensures
        taken_with(*lock, result.0, result.1),
        result.1.rwlock() == *lock,
        lock.inv(result.0),
{
    let acquire = GroupLock::acquire_write;
    acquire(lock)
}

/// Leaves the lock, after `act` was done to what it held when it was taken.
fn leave(
    handle: WriteHandle<'_, GuardedGroups, SharedPred>,
    shared: GuardedGroups,
    Ghost(first): Ghost<GuardedGroups>,
    Ghost(act): Ghost<Act<Waker>>,
)
    requires
        taken_with(handle.rwlock(), first, handle),
        first@.done(act, shared@),
        handle.rwlock().inv(shared),
    ensures
        exchanged(handle.rwlock(), first@, shared@),
{
    let release = WriteHandle::<'_, GuardedGroups, SharedPred>::release_write;
    let ghost held = handle;
    release(handle, shared);
    assert(left_with(held, shared));
}

/// Whether `lock` was made when no group was woken and nobody waited.
pub closed spec fn begins(lock: GroupLock) -> bool {
    exists|shared: GuardedGroups, pred: SharedPred| #[trigger]
        call_ensures(GroupLock::new, (shared, Ghost(pred)), lock) && shared@
            == SharedState::<Waker>::initial(shared@.ready.len())
}

/// Whether `group` was taken from the set of those that were woken.
pub open spec fn called(lock: GroupLock, group: int) -> bool {
    exists|state: SharedState<Waker>| #[trigger]
        exchanged(lock, state, state.emptied()) && 0 <= group < state.ready.len()
            && state.ready[group]
}

/// Whether no group was found woken, and at the same time a copy of `waker` was registered
/// as the waker of the task, to be woken with the next wake-up.
pub open spec fn idle(lock: GroupLock, waker: Waker) -> bool {
    exists|state: SharedState<Waker>, copy: Waker|
        {
            &&& #[trigger] exchanged(lock, state, state.announced(copy))
            &&& ready_set::none_set(state.ready)
            &&& task::copied(waker, copy)
        }
}

/// Where no group was found woken and the waker of the task was registered, the next wake-up
/// hands out that waker.
pub proof fn lemma_next_wake_up_wakes(lock: GroupLock, waker: Waker)
    requires
        idle(lock, waker),
    ensures
        exists|before: SharedState<Waker>, after: SharedState<Waker>, copy: Waker|
            {
                &&& #[trigger] exchanged(lock, before, after)
                &&& #[trigger] before.done(Act::Announce(copy), after)
                &&& task::copied(waker, copy)
                &&& after.notification() == Some(copy)
            },
{
    let (state, copy) = choose|state: SharedState<Waker>, copy: Waker|
        {
            &&& #[trigger] exchanged(lock, state, state.announced(copy))
            &&& ready_set::none_set(state.ready)
            &&& task::copied(waker, copy)
        };
    assert(state.done(Act::Announce(copy), state.announced(copy)));
}

/// Whether the waker of the task was removed.
pub open spec fn closed_off(lock: GroupLock) -> bool {
    exists|state: SharedState<Waker>| #[trigger] exchanged(lock, state, state.closed())
}

/// Whether what was done between `log` and `longer` is that the waker of the task was
/// removed and dropped.
pub open spec fn closes(lock: GroupLock, log: Seq<GroupNote>, longer: Seq<GroupNote>) -> bool {
    exists|state: SharedState<Waker>|
        {
            &&& #[trigger] exchanged(lock, state, state.closed())
            &&& task::dropped(state.parent)
            &&& longer == log.push(
                GroupNote::Did { before: state, act: Act::Close, after: state.closed() },
            )
        }
}

/// Whether what was done between `log` and `longer` is that the groups that were woken were
/// taken, which are those of `queue`.
pub open spec fn takes(
    lock: GroupLock,
    queue: Seq<usize>,
    log: Seq<GroupNote>,
    longer: Seq<GroupNote>,
) -> bool {
    exists|state: SharedState<Waker>|
        {
            &&& #[trigger] exchanged(lock, state, state.emptied())
            &&& queue == state.listed()
            &&& state.ready.len() <= usize::MAX
            &&& longer == log.push(
                GroupNote::Did { before: state, act: Act::Take, after: state.emptied() },
            )
        }
}

/// Whether what was done between `log` and `longer` is that no group was found woken, and at
/// the same time a copy of `waker` was registered as the waker of the task, and the one before
/// was dropped.
pub open spec fn announces(
    lock: GroupLock,
    waker: Waker,
    log: Seq<GroupNote>,
    longer: Seq<GroupNote>,
) -> bool {
    exists|state: SharedState<Waker>, copy: Waker|
        {
            &&& #[trigger] exchanged(lock, state, state.announced(copy))
            &&& ready_set::none_set(state.ready)
            &&& task::copied(waker, copy)
            &&& task::dropped(state.parent)
            &&& longer == log.push(
                GroupNote::Did {
                    before: state,
                    act: Act::Announce(copy),
                    after: state.announced(copy),
                },
            )
        }
}

/// Whether what was done between `log` and `longer` is that polling `group` began.
pub open spec fn begun(
    lock: GroupLock,
    group: int,
    log: Seq<GroupNote>,
    longer: Seq<GroupNote>,
) -> bool {
    exists|state: SharedState<Waker>|
        {
            &&& #[trigger] exchanged(lock, state, state.begun(group))
            &&& longer == log.push(
                GroupNote::Did { before: state, act: Act::Begin(group), after: state.begun(group) },
            )
        }
}

/// Whether what was done between `log` and `longer` is that polling `group` has ended, and
/// it was `woken` meanwhile or not.
pub open spec fn finished(
    lock: GroupLock,
    group: int,
    woken: bool,
    log: Seq<GroupNote>,
    longer: Seq<GroupNote>,
) -> bool {
    exists|state: SharedState<Waker>|
        {
            &&& #[trigger] exchanged(lock, state, state.finished())
            &&& woken == (state.polling != Some(group))
            &&& longer == log.push(
                GroupNote::Did { before: state, act: Act::Finish, after: state.finished() },
            )
        }
}

/// Whether `group` was woken, and with it the task, if it may have been waiting.
pub open spec fn group_woken(lock: GroupLock, group: int) -> bool {
    exists|state: SharedState<Waker>|
        {
            &&& #[trigger] exchanged(lock, state, state.woken(group))
            &&& state.notification() matches Some(waker) ==> task::woken(waker)
        }
}

/// The waker of the futures of a group.
pub struct GroupWaker {
    shared: Arc<GroupLock>,
    group: usize,
}

impl GroupWaker {
    #[verifier::type_invariant]
    spec fn in_range(self) -> bool {
        self.group < self.shared.pred().groups
    }

    /// The set of woken groups.
    pub closed spec fn lock(&self) -> GroupLock {
        *self.shared
    }

    /// The group.
    pub closed spec fn group(&self) -> int {
        self.group as int
    }

    /// Records that the group was woken, and wakes the task that polls the futures
    /// if it may be waiting for a wake-up.
    ///
    /// Nothing else is done to what is shared by `call`, and the waker of the task that is
    /// taken from it is woken.
    pub(crate) fn wake_group(&self, call: &mut Call<SharedState<Waker>>)
        ensures
            ({
                let (before, woken, after) = final(call).log().last();
                &&& final(call).log() == old(call).log().push((before, woken, after))
                &&& woken == self.group()
                &&& after == before.woken(woken)
                &&& exchanged(self.lock(), before, after)
                &&& before.notification() matches Some(waker) ==> task::woken(waker)
            }),
            group_woken(self.lock(), self.group()),
    {
        proof {
            use_type_invariant(self);
        }
        let (mut shared, handle) = take(&self.shared);
        let ghost first = shared;
        let parent: Option<Waker> = shared.wake_by_ref(call, self.group);
        leave(handle, shared, Ghost(first), Ghost(Act::Wake(self.group())));
        assert(exchanged(self.lock(), first@, first@.woken(self.group())));
        if let Some(waker) = parent {
            task::wake(waker);
        }
    }
}

/// What `waker` was made from.
pub uninterp spec fn group_waker(waker: Waker) -> GroupWaker;

/// The conversion of an [`Arc`] of a [`std::task::Wake`] into a [`std::task::Waker`],
/// which wakes by calling it: a waker of what it was made from.
#[verifier::external_body]
fn waker_from_group(waker: Arc<GroupWaker>) -> (result: Waker)
    ensures
        group_waker(result) == *waker,
{
    Waker::from(waker)
}

/// Whether `waker` wakes `group` among those behind `lock`.
pub open spec fn wakes(waker: Waker, lock: GroupLock, group: int) -> bool {
    group_waker(waker).lock() == lock && group_waker(waker).group() == group
}

/// One poll of one group: the group, where its polls begin and end in the sequence of the
/// polls of elements, and what the task and the wakers shared when it was recorded that it
/// begins, and that it has ended.
pub ghost struct Visit {
    pub group: int,
    pub from: int,
    pub to: int,
    pub before: SharedState<Waker>,
    pub after: SharedState<Waker>,
}

impl Visit {
    /// Whether the group was woken while it was polled.
    pub open spec fn yielded(self) -> bool {
        self.after.polling != Some(self.group)
    }
}

/// The groups to poll: those of `queue`, and then each time those that were woken when
/// what is shared was in the next of these states.
pub open spec fn supply(queue: Seq<usize>, refills: Seq<SharedState<Waker>>) -> Seq<usize>
    decreases refills.len(),
{
    if refills.len() == 0 {
        queue
    } else {
        supply(queue, refills.drop_last()) + refills.last().listed()
    }
}

/// The elements of `group` that have not completed, in order.
pub open spec fn members<F, T>(state: Seq<Progress<F, T>>, group: int) -> Seq<usize> {
    ready_set::listing(
        progress::pending_of(state),
        group * GROUP_SIZE,
        group * GROUP_SIZE + GROUP_SIZE,
    )
}

/// Whether `visit` polls the elements of its group that have not completed, in order, each
/// with the waker of the group. Unless it is `whole`, it may end before the last of them.
pub open spec fn polls_group<F, T, E>(
    lock: GroupLock,
    start: Seq<Progress<F, T>>,
    trace: Seq<PollEvent<F, T, E>>,
    visit: Visit,
    whole: bool,
) -> bool {
    let all = members(progress::run(start, trace.take(visit.from)), visit.group);
    &&& 0 <= visit.from <= visit.to <= trace.len()
    &&& visit.to - visit.from <= all.len()
    &&& whole ==> visit.to - visit.from == all.len()
    &&& forall|k: int|
        visit.from <= k < visit.to ==> (#[trigger] trace[k]).index == all[k - visit.from]
            && wakes(trace[k].waker, lock, visit.group)
}

/// Whether visit `k` polls the group whose turn it is, and that its polls begin and end was
/// recorded, in a call that gives `result`. If an element fails, the last visit ends with
/// it. If the call ends the wait, that the last visit ends is not recorded.
pub open spec fn visits_group<F, T, E>(
    lock: GroupLock,
    start: Seq<Progress<F, T>>,
    groups: Seq<usize>,
    trace: Seq<PollEvent<F, T, E>>,
    visits: Seq<Visit>,
    result: Poll<Result<(), E>>,
    k: int,
) -> bool {
    let visit = visits[k];
    let last = k == visits.len() - 1;
    &&& visit.group == groups[k]
    &&& visit.from == (if k == 0 {
        0
    } else {
        visits[k - 1].to
    })
    &&& exchanged(lock, visit.before, visit.before.begun(visit.group))
    &&& polls_group(
        lock,
        start,
        trace,
        visit,
        !(last && result matches Poll::Ready(Err(_))),
    )
    &&& !last || result is Pending ==> exchanged(lock, visit.after, visit.after.finished())
}

/// How many of the first `n` visits polled a group that was woken meanwhile, which is taken
/// to mean that one of its futures wanted to yield.
pub open spec fn yields(visits: Seq<Visit>, n: int) -> nat
    decreases n,
{
    if n <= 0 {
        0
    } else {
        yields(visits, n - 1) + if visits[n - 1].yielded() {
            1nat
        } else {
            0nat
        }
    }
}

/// Whether the visits, with the polls of `trace`, are made one after the other as they are
/// to be by a call that gives `result`: first to the groups of `queue`, and then each time
/// to those that were woken, which are taken in the states of `refills` once all others
/// were visited. None is made after two groups wanted to yield. Only when one of its
/// elements fails a visit ends before it has come to all of them.
pub open spec fn follows<F, T, E>(
    lock: GroupLock,
    start: Seq<Progress<F, T>>,
    queue: Seq<usize>,
    result: Poll<Result<(), E>>,
    trace: Seq<PollEvent<F, T, E>>,
    visits: Seq<Visit>,
    refills: Seq<SharedState<Waker>>,
) -> bool {
    &&& progress::valid(start, trace)
    &&& visits.len() <= supply(queue, refills).len()
    &&& trace.len() == (if visits.len() == 0 {
        0
    } else {
        visits.last().to
    })
    &&& forall|m: int|
        0 <= m < refills.len() ==> exchanged(
            lock,
            #[trigger] refills[m],
            refills[m].emptied(),
        ) && refills[m].ready.len() <= usize::MAX && supply(queue, refills.take(m)).len()
            <= visits.len()
    &&& forall|k: int|
        0 <= k < visits.len() ==> #[trigger] visits_group(
            lock,
            start,
            supply(queue, refills),
            trace,
            visits,
            result,
            k,
        )
    &&& forall|k: int| 0 <= k < visits.len() ==> #[trigger] yields(visits, k) < 2
}

/// Whether a call, with these visits, ends as it is to end, where `rest` are the groups that
/// it leaves to be polled by the next one. It yields, which wakes the task of `waker`, after
/// as many visits as there are groups or after two groups wanted to. Else it ends when all
/// elements have completed, and none has failed in an earlier call, so that `remaining` is
/// the number of those that had not, or one fails, or when no group is left, the last time
/// that woken groups were taken there were none, and none was woken when the waker of the
/// task was registered.
pub open spec fn ends<F, T, E>(
    lock: GroupLock,
    waker: Waker,
    start: Seq<Progress<F, T>>,
    queue: Seq<usize>,
    rest: Seq<usize>,
    remaining: nat,
    result: Poll<Result<(), E>>,
    trace: Seq<PollEvent<F, T, E>>,
    visits: Seq<Visit>,
    refills: Seq<SharedState<Waker>>,
) -> bool {
    let end = progress::run(start, trace);
    let limit = group_count(start.len() as int);
    &&& visits.len() <= limit
    &&& rest == supply(queue, refills).skip(visits.len() as int)
    &&& match result {
        Poll::Ready(Err(error)) => trace.len() > 0 && trace.last().result == Poll::Ready(
            Err::<T, E>(error),
        ),
        Poll::Ready(Ok(())) => {
            &&& progress::no_failure(trace)
            &&& progress::pending_count(end) == 0
            &&& remaining == progress::pending_count(start)
        },
        Poll::Pending => {
            &&& progress::no_failure(trace)
            &&& progress::pending_count(end) > 0 || remaining > progress::pending_count(start)
            &&& if visits.len() >= limit || yields(visits, visits.len() as int) >= 2 {
                task::woken(waker)
            } else {
                &&& rest.len() == 0
                &&& refills.len() > 0 && refills.last().listed().len() == 0
                &&& idle(lock, waker)
            }
        },
    }
}

/// Whether a call, with these visits, takes the elements from `start` to `end` and gives
/// `result`.
pub open spec fn runs<F, T, E>(
    lock: GroupLock,
    waker: Waker,
    start: Seq<Progress<F, T>>,
    end: Seq<Progress<F, T>>,
    queue: Seq<usize>,
    rest: Seq<usize>,
    remaining: nat,
    result: Poll<Result<(), E>>,
    gives: Gives<F, T, E>,
    trace: Seq<PollEvent<F, T, E>>,
    visits: Seq<Visit>,
    refills: Seq<SharedState<Waker>>,
) -> bool {
    &&& follows(lock, start, queue, result, trace, visits, refills)
    &&& progress::told(start, trace, gives)
    &&& ends(lock, waker, start, queue, rest, remaining, result, trace, visits, refills)
    &&& end == progress::run(start, trace)
}

/// Whether a call that polls the groups of `queue`, and then those that were woken, can have
/// taken the elements from `start` to `end`, left the groups of `rest` and given `result`.
/// As many elements as `remaining` had not completed or have failed.
pub open spec fn may_run<F, T, E>(
    lock: GroupLock,
    waker: Waker,
    start: Seq<Progress<F, T>>,
    end: Seq<Progress<F, T>>,
    queue: Seq<usize>,
    rest: Seq<usize>,
    remaining: nat,
    result: Poll<Result<(), E>>,
    gives: Gives<F, T, E>,
) -> bool {
    exists|
        trace: Seq<PollEvent<F, T, E>>,
        visits: Seq<Visit>,
        refills: Seq<SharedState<Waker>>,
    | #[trigger]
        runs(
            lock,
            waker,
            start,
            end,
            queue,
            rest,
            remaining,
            result,
            gives,
            trace,
            visits,
            refills,
        )
}

/// Whether a call on `len` elements that makes these visits and gives `result` leaves it to
/// the next wake-up to wake the task.
pub open spec fn leaves_idle<E>(
    len: int,
    result: Poll<Result<(), E>>,
    visits: Seq<Visit>,
) -> bool {
    result is Pending && !(visits.len() >= group_count(len) || yields(
        visits,
        visits.len() as int,
    ) >= 2)
}

/// As [`may_run`], of a call that does what `notes` are of and nothing else: it polls these
/// elements, and does to what is shared what is to be done.
pub open spec fn booked<F, T, E>(
    lock: GroupLock,
    waker: Waker,
    start: Seq<Progress<F, T>>,
    end: Seq<Progress<F, T>>,
    queue: Seq<usize>,
    rest: Seq<usize>,
    remaining: nat,
    result: Poll<Result<(), E>>,
    gives: Gives<F, T, E>,
    notes: Seq<GroupNote>,
) -> bool {
    exists|
        trace: Seq<PollEvent<F, T, E>>,
        visits: Seq<Visit>,
        refills: Seq<SharedState<Waker>>,
    |
        {
            &&& #[trigger] runs(
                lock,
                waker,
                start,
                end,
                queue,
                rest,
                remaining,
                result,
                gives,
                trace,
                visits,
                refills,
            )
            &&& group_ledger::kept(
                lock,
                waker,
                queue,
                notes,
                ledger::turns_of(trace),
                visits,
                refills,
                leaves_idle(start.len() as int, result, visits),
                result is Ready && visits.len() > 0,
            )
        }
}

/// Taking the woken groups once all others were visited.
#[verifier::rlimit(40)]
#[verifier::spinoff_prover]
proof fn lemma_refill<F, T, E>(
    lock: GroupLock,
    start: Seq<Progress<F, T>>,
    queue: Seq<usize>,
    trace: Seq<PollEvent<F, T, E>>,
    visits: Seq<Visit>,
    refills: Seq<SharedState<Waker>>,
    state: SharedState<Waker>,
)
    requires
        follows(
            lock,
            start,
            queue,
            Poll::<Result<(), E>>::Pending,
            trace,
            visits,
            refills,
        ),
        visits.len() == supply(queue, refills).len(),
        exchanged(lock, state, state.emptied()),
        state.ready.len() <= usize::MAX,
    ensures
        follows(
            lock,
            start,
            queue,
            Poll::<Result<(), E>>::Pending,
            trace,
            visits,
            refills.push(state),
        ),
        supply(queue, refills.push(state)) == supply(queue, refills) + state.listed(),
{
    let more = refills.push(state);
    let groups = supply(queue, refills);
    assert(more.drop_last() =~= refills);
    assert forall|m: int| 0 <= m < more.len() implies exchanged(
        lock,
        #[trigger] more[m],
        more[m].emptied(),
    ) && more[m].ready.len() <= usize::MAX && supply(queue, more.take(m)).len() <= visits.len() by {
        if m < refills.len() {
            assert(more[m] == refills[m]);
            assert(more.take(m) =~= refills.take(m));
        } else {
            assert(more.take(m) =~= refills);
        }
    }
    assert forall|k: int| 0 <= k < visits.len() implies #[trigger] visits_group(
        lock,
        start,
        supply(queue, more),
        trace,
        visits,
        Poll::<Result<(), E>>::Pending,
        k,
    ) by {
        assert(visits_group(
            lock,
            start,
            groups,
            trace,
            visits,
            Poll::<Result<(), E>>::Pending,
            k,
        ));
    }
}

/// One more visit.
#[verifier::rlimit(40)]
#[verifier::spinoff_prover]
proof fn lemma_visit<F, T, E>(
    lock: GroupLock,
    start: Seq<Progress<F, T>>,
    queue: Seq<usize>,
    result: Poll<Result<(), E>>,
    trace: Seq<PollEvent<F, T, E>>,
    longer: Seq<PollEvent<F, T, E>>,
    visits: Seq<Visit>,
    visit: Visit,
    refills: Seq<SharedState<Waker>>,
)
    requires
        follows(
            lock,
            start,
            queue,
            Poll::<Result<(), E>>::Pending,
            trace,
            visits,
            refills,
        ),
        yields(visits, visits.len() as int) < 2,
        visits.len() < supply(queue, refills).len(),
        trace.is_prefix_of(longer),
        progress::valid(start, longer),
        visit.group == supply(queue, refills)[visits.len() as int],
        visit.from == trace.len(),
        visit.to == longer.len(),
        exchanged(lock, visit.before, visit.before.begun(visit.group)),
        polls_group(
            lock,
            start,
            longer,
            visit,
            !(result matches Poll::Ready(Err(_))),
        ),
        result is Pending ==> exchanged(lock, visit.after, visit.after.finished()),
    ensures
        follows(lock, start, queue, result, longer, visits.push(visit), refills),
        yields(visits.push(visit), (visits.len() + 1) as int) == yields(
            visits,
            visits.len() as int,
        ) + (if visit.yielded() {
            1int
        } else {
            0int
        }),
{
    let more = visits.push(visit);
    let groups = supply(queue, refills);
    assert forall|j: int| 0 <= j < trace.len() implies #[trigger] longer[j] == trace[j] by {
        assert(longer.subrange(0, trace.len() as int)[j] == longer[j]);
    }
    assert forall|k: int| 0 <= k < more.len() implies #[trigger] visits_group(
        lock,
        start,
        groups,
        longer,
        more,
        result,
        k,
    ) by {
        if k < visits.len() {
            assert(visits_group(
                lock,
                start,
                groups,
                trace,
                visits,
                Poll::<Result<(), E>>::Pending,
                k,
            ));
            assert(longer.take(visits[k].from) =~= trace.take(visits[k].from));
        }
        if k > 0 {
            assert(more[k - 1] == visits[k - 1]);
        }
    }
    assert forall|k: int| 0 <= k < more.len() implies #[trigger] yields(more, k) < 2 by {
        lemma_yields_same(visits, more, k);
        if k < visits.len() {
            assert(yields(visits, k) < 2);
        }
    }
    lemma_yields_same(visits, more, visits.len() as int);
}

/// Visits that are not the first ones make no difference to how many of these yielded.
proof fn lemma_yields_same(visits: Seq<Visit>, more: Seq<Visit>, n: int)
    requires
        n <= visits.len(),
        visits.is_prefix_of(more),
    ensures
        yields(more, n) == yields(visits, n),
    decreases n,
{
    if n > 0 {
        lemma_yields_same(visits, more, n - 1);
    }
}

/// Only those groups are polled that were to be polled from the beginning, in order, or
/// that were woken.
pub proof fn lemma_only_woken_polled<F, T, E>(
    lock: GroupLock,
    start: Seq<Progress<F, T>>,
    queue: Seq<usize>,
    result: Poll<Result<(), E>>,
    trace: Seq<PollEvent<F, T, E>>,
    visits: Seq<Visit>,
    refills: Seq<SharedState<Waker>>,
    k: int,
)
    requires
        follows(lock, start, queue, result, trace, visits, refills),
        0 <= k < visits.len(),
    ensures
        if k < queue.len() {
            visits[k].group == queue[k]
        } else {
            called(lock, visits[k].group)
        },
{
    assert(visits_group(lock, start, supply(queue, refills), trace, visits, result, k));
    lemma_supplied(lock, queue, refills, k);
}

/// A call that does not end the wait has woken the task, or has polled every group that was
/// to be polled, and no group was woken when it registered the waker of the task.
pub proof fn lemma_polled_again<F, T, E>(
    lock: GroupLock,
    waker: Waker,
    start: Seq<Progress<F, T>>,
    end: Seq<Progress<F, T>>,
    queue: Seq<usize>,
    rest: Seq<usize>,
    remaining: nat,
    gives: Gives<F, T, E>,
)
    requires
        may_run(
            lock,
            waker,
            start,
            end,
            queue,
            rest,
            remaining,
            Poll::<Result<(), E>>::Pending,
            gives,
        ),
    ensures
        task::woken(waker) || (rest.len() == 0 && idle(lock, waker)),
{
}

/// A group that is to be polled was so from the beginning or was woken.
proof fn lemma_supplied(
    lock: GroupLock,
    queue: Seq<usize>,
    refills: Seq<SharedState<Waker>>,
    k: int,
)
    requires
        0 <= k < supply(queue, refills).len(),
        forall|m: int|
            0 <= m < refills.len() ==> exchanged(lock, #[trigger] refills[m], refills[m].emptied()),
        forall|m: int| 0 <= m < refills.len() ==> (#[trigger] refills[m]).ready.len() <= usize::MAX,
    ensures
        if k < queue.len() {
            supply(queue, refills)[k] == queue[k]
        } else {
            called(lock, supply(queue, refills)[k] as int)
        },
    decreases refills.len(),
{
    if refills.len() > 0 {
        let earlier = supply(queue, refills.drop_last());
        let last = refills[refills.len() - 1];
        lemma_supply_grows(queue, refills.drop_last());
        if k < earlier.len() {
            assert forall|m: int| 0 <= m < refills.drop_last().len() implies exchanged(
                lock,
                #[trigger] refills.drop_last()[m],
                refills.drop_last()[m].emptied(),
            ) && refills.drop_last()[m].ready.len() <= usize::MAX by {
                assert(refills.drop_last()[m] == refills[m]);
            }
            lemma_supplied(lock, queue, refills.drop_last(), k);
        } else {
            ready_set::lemma_listing(last.ready, 0, last.ready.len() as int);
            assert(supply(queue, refills)[k] == last.listed()[k - earlier.len()]);
            assert(exchanged(lock, last, last.emptied()));
        }
    }
}

/// Taking woken groups leaves those that were to be polled before.
proof fn lemma_supply_grows(queue: Seq<usize>, refills: Seq<SharedState<Waker>>)
    ensures
        queue.is_prefix_of(supply(queue, refills)),
    decreases refills.len(),
{
    if refills.len() > 0 {
        lemma_supply_grows(queue, refills.drop_last());
    }
}

/// Futures split into groups, each with its own waker.
#[verifier::reject_recursive_types(T)]
pub struct WakeGroups<T> {
    /// The elements; group `i` is `elems[i * GROUP_SIZE..][..GROUP_SIZE]`.
    elems: Vec<T>,
    /// One waker per group.
    wakers: Vec<Waker>,
    shared: Arc<GroupLock>,
    /// The groups to poll, and the position of the next one in it.
    queue: Vec<usize>,
    next: usize,
    /// The number of elements that have not completed.
    remaining: usize,
    /// What was done to the groups and the elements.
    ledger: GroupLedger,
}

impl<T> WakeGroups<T> {
    /// The set of woken groups.
    pub closed spec fn lock(&self) -> GroupLock {
        *self.shared
    }

    /// The elements.
    pub closed spec fn elems(&self) -> Seq<T> {
        self.elems@
    }

    /// The number of elements that have not completed.
    pub closed spec fn remaining(&self) -> nat {
        self.remaining as nat
    }

    /// The groups that are to be polled before any that are woken from now on.
    pub closed spec fn queued(&self) -> Seq<usize> {
        self.queue@.skip(self.next as int)
    }

    /// What was done to what is shared, other than by the wakers, and to the elements, one
    /// after the other.
    pub closed spec fn log(&self) -> Seq<GroupNote> {
        self.ledger.log()
    }

    /// Each group has a waker, which wakes it, and only groups are to be polled.
    pub closed spec fn wf(&self) -> bool {
        &&& self.wakers@.len() == group_count(self.elems@.len() as int)
        &&& self.shared.pred().groups == self.wakers@.len()
        &&& self.shared.pred().id == self.ledger.id()
        &&& self.remaining <= self.elems@.len()
        &&& self.next <= self.queue@.len()
        &&& forall|g: int|
            0 <= g < self.wakers@.len() ==> wakes(#[trigger] self.wakers@[g], self.lock(), g)
        &&& forall|k: int| 0 <= k < self.queue@.len() ==> #[trigger] self.queue@[k] < self.wakers@.len()
    }

    /// Splits the elements yielded by `iter` into groups. Every group is polled
    /// once before waiting for wake-ups.
    pub fn new<I: Iterator<Item = T>>(iter: I) -> (groups: Self)
        ensures
            groups.wf(),
            begins(groups.lock()),
            iter.obeys_prophetic_iter_laws() ==> groups.elems() == iter.remaining(),
            groups.remaining() == groups.elems().len(),
            groups.log() == Seq::<GroupNote>::empty(),
            groups.queued() == Seq::new(
                group_count(groups.elems().len() as int) as nat,
                |i: int| i as usize,
            ),
    {
        let elems: Vec<T> = task::collect(iter);
        let remaining: usize = elems.len();
        let groups: usize = if remaining % GROUP_SIZE == 0 {
            remaining / GROUP_SIZE
        } else {
            remaining / GROUP_SIZE + 1
        };

        let (first, ledger) = GuardedGroups::new(groups);
        let ghost pred = SharedPred { groups, id: ledger.id() };
        let make = GroupLock::new;
        let shared: Arc<GroupLock> = Arc::new(make(first, Ghost(pred)));
        assert(begins(*shared));
        let mut wakers: Vec<Waker> = Vec::new();
        let mut queue: Vec<usize> = Vec::new();
        while wakers.len() < groups
            invariant
                wakers.len() <= groups,
                shared.pred().groups == groups,
                shared.pred().id == ledger.id(),
                begins(*shared),
                forall|g: int| 0 <= g < wakers.len() ==> wakes(#[trigger] wakers@[g], *shared, g),
                queue@ == Seq::new(wakers.len() as nat, |i: int| i as usize),
            decreases groups - wakers.len(),
        {
            let group: usize = wakers.len();
            let waker: GroupWaker = GroupWaker { shared: shared.clone(), group };
            wakers.push(waker_from_group(Arc::new(waker)));
            queue.push(group);
        }
        let groups: WakeGroups<T> = WakeGroups {
            elems,
            wakers,
            shared,
            queue,
            next: 0,
            remaining,
            ledger,
        };
        groups
    }

    /// Returns the elements, to look at them.
    pub fn get(&self) -> (elems: &Vec<T>)
        ensures
            elems@ == self.elems(),
    {
        &self.elems
    }

    /// Gives up the elements.
    pub fn into_elems(self) -> (elems: Vec<T>)
        requires
            self.wf(),
        ensures
            elems@ == self.elems(),
            closed_off(self.lock()),
            exists|longer: Seq<GroupNote>| #[trigger] closes(self.lock(), self.log(), longer),
    {
        let mut groups: WakeGroups<T> = self;
        groups.close();
        groups.elems
    }

    /// Drops the waker of the task that polls the futures. Wakers can outlive
    /// `self`, and then don't wake a task that no longer polls the futures. The contract
    /// does not say that nobody is woken.
    pub fn close(&mut self)
        requires
            old(self).wf(),
        ensures
            final(self).wf(),
            final(self).lock() == old(self).lock(),
            final(self).elems() == old(self).elems(),
            final(self).remaining() == old(self).remaining(),
            final(self).queued() == old(self).queued(),
            closed_off(old(self).lock()),
            closes(old(self).lock(), old(self).log(), final(self).log()),
    {
        let (mut shared, handle) = take(&self.shared);
        let ghost first = shared;
        let parent: Option<Waker> = shared.take_parent(&mut self.ledger);
        leave(handle, shared, Ghost(first), Ghost(Act::Close));
        assert(exchanged(self.lock(), first@, first@.closed()));
        task::discard(parent);
    }

    /// Records that polling `group` begins.
    fn begin(&mut self, group: usize)
        requires
            old(self).wf(),
        ensures
            final(self).wf(),
            final(self).lock() == old(self).lock(),
            final(self).elems() == old(self).elems(),
            final(self).remaining() == old(self).remaining(),
            final(self).queued() == old(self).queued(),
            begun(old(self).lock(), group as int, old(self).log(), final(self).log()),
    {
        let (mut shared, handle) = take(&self.shared);
        let ghost first = shared;
        shared.begin(&mut self.ledger, group);
        leave(handle, shared, Ghost(first), Ghost(Act::Begin(group as int)));
        assert(exchanged(self.lock(), first@, first@.begun(group as int)));
    }

    /// Records that polling `group` has ended, and tells whether it was woken since it
    /// began.
    fn finish(&mut self, group: usize) -> (woken: bool)
        requires
            old(self).wf(),
        ensures
            final(self).wf(),
            final(self).lock() == old(self).lock(),
            final(self).elems() == old(self).elems(),
            final(self).remaining() == old(self).remaining(),
            final(self).queued() == old(self).queued(),
            finished(old(self).lock(), group as int, woken, old(self).log(), final(self).log()),
    {
        let (mut shared, handle) = take(&self.shared);
        let ghost first = shared;
        let woken: bool = shared.finish(&mut self.ledger, group);
        leave(handle, shared, Ghost(first), Ghost(Act::Finish));
        assert(exchanged(self.lock(), first@, first@.finished()));
        woken
    }

    /// Fills the queue, which has been gone through, with the groups that were
    /// woken.
    fn refill(&mut self)
        requires
            old(self).wf(),
        ensures
            final(self).wf(),
            final(self).lock() == old(self).lock(),
            final(self).elems() == old(self).elems(),
            final(self).remaining() == old(self).remaining(),
            takes(old(self).lock(), final(self).queued(), old(self).log(), final(self).log()),
            final(self).next == 0,
    {
        let mut queue: Vec<usize> = Vec::new();
        let (mut shared, handle) = take(&self.shared);
        let ghost first = shared;
        shared.take_ready(&mut self.ledger, &mut queue);
        leave(handle, shared, Ghost(first), Ghost(Act::Take));
        proof {
            ready_set::lemma_listing(first@.ready, 0, first@.ready.len() as int);
            assert(exchanged(self.lock(), first@, first@.emptied()));
        }
        self.queue = queue;
        self.next = 0;
        assert(self.queued() =~= first@.listed());
    }

    /// Fills the queue, which has been gone through, with the groups that were
    /// woken. If there is none, registers a copy of `waker`, the waker of the task that
    /// polls the futures, and announces that that task may wait for a wake-up, before any
    /// group can be woken.
    fn park(&mut self, waker: &Waker)
        requires
            old(self).wf(),
        ensures
            final(self).wf(),
            final(self).lock() == old(self).lock(),
            final(self).elems() == old(self).elems(),
            final(self).remaining() == old(self).remaining(),
            final(self).queued().len() == 0 ==> idle(old(self).lock(), *waker),
            final(self).queued().len() == 0 ==> announces(
                old(self).lock(),
                *waker,
                old(self).log(),
                final(self).log(),
            ),
            final(self).queued().len() > 0 ==> takes(
                old(self).lock(),
                final(self).queued(),
                old(self).log(),
                final(self).log(),
            ),
            final(self).next == 0,
    {
        let copy: Waker = task::copy(waker);
        let ghost parent = copy;
        let mut queue: Vec<usize> = Vec::new();
        let (mut shared, handle) = take(&self.shared);
        let ghost first = shared;
        if shared.park(&mut self.ledger, copy) {
            leave(handle, shared, Ghost(first), Ghost(Act::Announce(parent)));
            assert(exchanged(self.lock(), first@, first@.announced(parent)));
        } else {
            shared.take_ready(&mut self.ledger, &mut queue);
            leave(handle, shared, Ghost(first), Ghost(Act::Take));
            proof {
                ready_set::lemma_listing(first@.ready, 0, first@.ready.len() as int);
                assert(exchanged(self.lock(), first@, first@.emptied()));
            }
        }
        let ghost taken = queue@;
        self.queue = queue;
        self.next = 0;
        assert(self.queued() =~= taken);
        proof {
            if !ready_set::none_set(first@.ready) {
                let g = choose|g: int| 0 <= g < first@.ready.len() && #[trigger] first@.ready[g];
                assert(first@.listed().contains(g as usize));
            }
        }
    }
}

impl<T: PollElem> WakeGroups<T> {
    /// Polls the elements in the groups that may be able to make progress.
    ///
    /// These are the groups in the queue, in order, and then those that were woken.
    /// This returns `Poll::Ready(Ok(()))` once all elements have completed, or the
    /// first error returned by an element. It yields to the executor after polling as
    /// many groups as there are, or after two groups woke themselves. After an error it
    /// may be called again, and polls the other elements, but does not complete.
    ///
    /// What is done to what is shared and to the elements is all that is added to the log. The
    /// contract says that the task was woken where it was to be. That it was not woken more
    /// often it does not say.
    #[verifier::rlimit(100)]
    #[verifier::spinoff_prover]
    pub fn poll(&mut self, cx: &mut Context<'_>) -> (result: Poll<Result<(), T::Error>>)
        requires
            old(self).wf(),
            old(self).remaining() >= progress::pending_count(
                slot_wakers::progress_of(old(self).elems()),
            ),
            progress::all_live(slot_wakers::progress_of(old(self).elems())),
        ensures
            final(self).wf(),
            final(self).lock() == old(self).lock(),
            final(self).elems().len() == old(self).elems().len(),
            *final(cx) == *old(cx),
            may_run(
                old(self).lock(),
                task::context_waker(*old(cx)),
                slot_wakers::progress_of(old(self).elems()),
                slot_wakers::progress_of(final(self).elems()),
                old(self).queued(),
                final(self).queued(),
                old(self).remaining(),
                result,
                maybe_done::giving::<T>(),
            ),
            final(self).log() == old(self).log() + group_ledger::added(
                old(self).log(),
                final(self).log(),
            ),
            booked(
                old(self).lock(),
                task::context_waker(*old(cx)),
                slot_wakers::progress_of(old(self).elems()),
                slot_wakers::progress_of(final(self).elems()),
                old(self).queued(),
                final(self).queued(),
                old(self).remaining(),
                result,
                maybe_done::giving::<T>(),
                group_ledger::added(old(self).log(), final(self).log()),
            ),
            old(self).remaining() == 0 ==> final(self).elems() == old(self).elems(),
            progress::all_live(slot_wakers::progress_of(final(self).elems())),
            final(self).remaining() + progress::pending_count(
                slot_wakers::progress_of(old(self).elems()),
            ) == old(self).remaining() + progress::pending_count(
                slot_wakers::progress_of(final(self).elems()),
            ) + (if result matches Poll::Ready(Err(_)) {
                1int
            } else {
                0int
            }),
    {
        let ghost start = slot_wakers::progress_of(self.elems@);
        let ghost lock = self.lock();
        let ghost task_waker = task::context_waker(*cx);
        let ghost queue = self.queued();
        let ghost remaining = self.remaining();
        let ghost gives = maybe_done::giving::<T>();
        let ghost mut trace: Seq<PollEvent<T::Fut, T::Out, T::Error>> = Seq::empty();
        let ghost mut visits: Seq<Visit> = Seq::empty();
        let ghost mut refills: Seq<SharedState<Waker>> = Seq::empty();
        let ghost log = self.log();
        let ghost mut notes: Seq<GroupNote> = Seq::empty();
        proof {
            assert(log + notes =~= log);
            assert(group_ledger::added(log, log) =~= notes);
            group_ledger::lemma_kept_empty(lock, task_waker, queue);
            assert(ledger::turns_of(trace) =~= Seq::empty());
            progress::lemma_pending_count_zero(start);
            assert(queue.skip(0) =~= queue);
        }
        if self.remaining == 0 {
            assert(runs(
                lock,
                task_waker,
                start,
                start,
                queue,
                queue,
                remaining,
                Poll::Ready(Ok::<(), T::Error>(())),
                gives,
                trace,
                visits,
                refills,
            ));
            return Poll::Ready(Ok(()));
        }
        let len: usize = self.elems.len();
        let mut budget: Budget = Budget::new(self.wakers.len());

        loop
            invariant
                self.wf(),
                self.lock() == lock,
                lock == old(self).lock(),
                *cx == *old(cx),
                task_waker == task::context_waker(*old(cx)),
                self.elems@.len() == len,
                old(self).elems().len() == len,
                start == slot_wakers::progress_of(old(self).elems()),
                start.len() == len,
                progress::all_live(start),
                len > 0,
                old(self).remaining() > 0,
                remaining == old(self).remaining(),
                remaining >= progress::pending_count(start),
                gives == maybe_done::giving::<T>(),
                progress::told(start, trace, gives),
                budget.limit() == group_count(len as int),
                follows(
                    lock,
                    start,
                    queue,
                    Poll::<Result<(), T::Error>>::Pending,
                    trace,
                    visits,
                    refills,
                ),
                progress::no_failure(trace),
                slot_wakers::progress_of(self.elems@) == progress::run(start, trace),
                visits.len() == budget.polled(),
                yields(visits, visits.len() as int) == budget.yielded(),
                supply(queue, refills).skip(visits.len() as int) == self.queued(),
                !budget.spent(),
                self.remaining > 0,
                self.remaining + progress::pending_count(start) == remaining
                    + progress::pending_count(slot_wakers::progress_of(self.elems@)),
                queue == old(self).queued(),
                log == old(self).log(),
                self.log() == log + notes,
                group_ledger::kept(
                    lock,
                    task_waker,
                    queue,
                    notes,
                    ledger::turns_of(trace),
                    visits,
                    refills,
                    false,
                    false,
                ),
            decreases budget.limit() - budget.polled(),
        {
            let ghost now = slot_wakers::progress_of(self.elems@);
            proof {
                progress::lemma_all_live(start, trace);
            }
            if self.next == self.queue.len() {
                assert(self.queued().len() == 0);
                let ghost earlier_log = self.log();
                self.refill();
                proof {
                    let state = choose|state: SharedState<Waker>|
                        {
                            &&& #[trigger] exchanged(lock, state, state.emptied())
                            &&& self.queued() == state.listed()
                            &&& state.ready.len() <= usize::MAX
                            &&& self.log() == earlier_log.push(
                                GroupNote::Did {
                                    before: state,
                                    act: Act::Take,
                                    after: state.emptied(),
                                },
                            )
                        };
                    group_ledger::lemma_take_kept(
                        lock,
                        task_waker,
                        queue,
                        notes,
                        ledger::turns_of(trace),
                        visits,
                        refills,
                        state,
                    );
                    notes = notes.push(self.log().last());
                    assert(self.log() =~= log + notes);
                    lemma_refill(lock, start, queue, trace, visits, refills, state);
                    refills = refills.push(state);
                    assert(supply(queue, refills).skip(visits.len() as int) =~= self.queued());
                }
                if self.queue.len() == 0 {
                    let ghost parked_log = self.log();
                    self.park(cx.waker());
                    if self.queue.len() == 0 {
                        proof {
                            let (state, copy) = choose|state: SharedState<Waker>, copy: Waker|
                                {
                                    &&& #[trigger] exchanged(lock, state, state.announced(copy))
                                    &&& ready_set::none_set(state.ready)
                                    &&& task::copied(task_waker, copy)
                                    &&& task::dropped(state.parent)
                                    &&& self.log() == parked_log.push(
                                        GroupNote::Did {
                                            before: state,
                                            act: Act::Announce(copy),
                                            after: state.announced(copy),
                                        },
                                    )
                                };
                            group_ledger::lemma_announce_kept(
                                lock,
                                task_waker,
                                queue,
                                notes,
                                ledger::turns_of(trace),
                                visits,
                                refills,
                                state,
                                copy,
                            );
                            notes = notes.push(self.log().last());
                            assert(self.log() =~= log + notes);
                            assert(group_ledger::added(log, self.log()) =~= notes);
                        }
                        assert(supply(queue, refills).skip(visits.len() as int) =~= self.queued());
                        assert(runs(
                            lock,
                            task_waker,
                            start,
                            now,
                            queue,
                            self.queued(),
                            remaining,
                            Poll::<Result<(), T::Error>>::Pending,
                            gives,
                            trace,
                            visits,
                            refills,
                        ));
                        return Poll::Pending;
                    }
                    // A group was woken since the queue was filled.
                    proof {
                        let state = choose|state: SharedState<Waker>|
                            {
                                &&& #[trigger] exchanged(lock, state, state.emptied())
                                &&& self.queued() == state.listed()
                                &&& state.ready.len() <= usize::MAX
                                &&& self.log() == parked_log.push(
                                    GroupNote::Did {
                                        before: state,
                                        act: Act::Take,
                                        after: state.emptied(),
                                    },
                                )
                            };
                        group_ledger::lemma_take_kept(
                            lock,
                            task_waker,
                            queue,
                            notes,
                            ledger::turns_of(trace),
                            visits,
                            refills,
                            state,
                        );
                        notes = notes.push(self.log().last());
                        assert(self.log() =~= log + notes);
                        lemma_refill(lock, start, queue, trace, visits, refills, state);
                        refills = refills.push(state);
                        assert(supply(queue, refills).skip(visits.len() as int) =~= self.queued());
                    }
                }
            }
            let ghost groups = supply(queue, refills);
            let ghost pending_queue = self.queued();
            let group: usize = self.queue[self.next];
            self.next = self.next + 1;
            let ghost rest = self.queued();
            proof {
                assert(pending_queue.len() > 0 && pending_queue[0] == group);
                assert(pending_queue == groups.skip(visits.len() as int));
                assert(visits.len() < groups.len());
                assert(rest =~= pending_queue.skip(1));
                assert(pending_queue.skip(1) =~= groups.skip(visits.len() as int + 1));
            }
            let ghost begin_log = self.log();
            self.begin(group);
            let ghost before = choose|state: SharedState<Waker>|
                {
                    &&& #[trigger] exchanged(lock, state, state.begun(group as int))
                    &&& self.log() == begin_log.push(
                        GroupNote::Did {
                            before: state,
                            act: Act::Begin(group as int),
                            after: state.begun(group as int),
                        },
                    )
                };
            let ghost begin_notes = notes.push(self.log().last());
            let ghost turns = ledger::turns_of(trace);
            proof {
                assert(group_ledger::poll_notes(turns, turns.len() as int) =~= Seq::empty());
                assert(self.log() =~= log + (begin_notes + group_ledger::poll_notes(
                    turns,
                    turns.len() as int,
                )));
            }

            let first: usize = group * GROUP_SIZE;
            let end: usize = if len - first < GROUP_SIZE {
                len
            } else {
                first + GROUP_SIZE
            };
            let ghost earlier = trace;
            let ghost flags = progress::pending_of(now);
            let ghost all = members(now, group as int);
            let mut i: usize = first;
            while i < end
                invariant
                    self.wf(),
                    self.lock() == lock,
                    lock == old(self).lock(),
                    *cx == *old(cx),
                    task_waker == task::context_waker(*old(cx)),
                    self.elems@.len() == len,
                    old(self).elems().len() == len,
                    old(self).remaining() > 0,
                    remaining == old(self).remaining(),
                    remaining >= progress::pending_count(start),
                    gives == maybe_done::giving::<T>(),
                    progress::told(start, trace, gives),
                    self.queued() == rest,
                    start.len() == len,
                    now.len() == len,
                    group < self.wakers@.len(),
                    first <= i <= end <= len,
                    first == group * GROUP_SIZE,
                    end == (if len - first < GROUP_SIZE {
                        len as int
                    } else {
                        first + GROUP_SIZE
                    }),
                    progress::valid(start, trace),
                    progress::no_failure(trace),
                    progress::all_live(start),
                    slot_wakers::progress_of(self.elems@) == progress::run(start, trace),
                    budget.limit() == group_count(len as int),
                    !budget.spent(),
                    self.remaining + progress::pending_count(start) == remaining
                        + progress::pending_count(slot_wakers::progress_of(self.elems@)),
                    start == slot_wakers::progress_of(old(self).elems()),
                    queue == old(self).queued(),
                    log == old(self).log(),
                    turns == ledger::turns_of(earlier),
                    begin_notes == notes.push(
                        GroupNote::Did {
                            before,
                            act: Act::Begin(group as int),
                            after: before.begun(group as int),
                        },
                    ),
                    self.log() == log + (begin_notes + group_ledger::poll_notes(
                        ledger::turns_of(trace),
                        turns.len() as int,
                    )),
                    group_ledger::kept(
                        lock,
                        task_waker,
                        queue,
                        notes,
                        turns,
                        visits,
                        refills,
                        false,
                        false,
                    ),
                    follows(
                        lock,
                        start,
                        queue,
                        Poll::<Result<(), T::Error>>::Pending,
                        earlier,
                        visits,
                        refills,
                    ),
                    yields(visits, visits.len() as int) < 2,
                    visits.len() == budget.polled(),
                    groups == supply(queue, refills),
                    visits.len() < groups.len(),
                    rest == groups.skip(visits.len() as int + 1),
                    groups[visits.len() as int] == group,
                    exchanged(lock, before, before.begun(group as int)),
                    earlier.is_prefix_of(trace),
                    now == progress::run(start, earlier),
                    flags == progress::pending_of(now),
                    all == members(now, group as int),
                    trace.len() - earlier.len() == ready_set::listing(
                        flags,
                        first as int,
                        i as int,
                    ).len(),
                    forall|k: int|
                        earlier.len() <= k < trace.len() ==> (#[trigger] trace[k]).index == all[k
                            - earlier.len()] && wakes(trace[k].waker, lock, group as int),
                    forall|j: int|
                        i <= j < len ==> (#[trigger] self.elems@[j]).progress() == now[j],
                decreases end - i,
            {
                proof {
                    ready_set::lemma_listing_split(flags, first as int, i + 1, first + GROUP_SIZE);
                    assert(self.elems@[i as int].progress() == now[i as int]);
                    progress::lemma_all_live(start, trace);
                }
                if self.elems[i].is_pending() {
                    let ghost held = slot_wakers::progress_of(self.elems@);
                    let ghost done = trace;
                    let mut group_cx: Context<'_> = Context::from_waker(&self.wakers[group]);
                    let ghost waker = task::context_waker(group_cx);
                    proof {
                        assert(held[i as int] == self.elems@[i as int].progress());
                    }
                    let signal: Poll<Result<(), T::Error>> = self.ledger.poll_elem(
                        &mut self.elems,
                        i,
                        &mut group_cx,
                    );
                    let ghost seen = signal;
                    proof {
                        let after = self.elems@[i as int].progress();
                        let event = PollEvent {
                            index: i as int,
                            waker,
                            left: task::context_waker(group_cx),
                            moved: after->Pending_0.pointer,
                            result: progress::returned(after, signal),
                        };
                        progress::lemma_run_step(start, trace, event);
                        progress::lemma_told_step(start, trace, event, gives);
                        progress::lemma_pending_count_update(held, i as int, after);
                        assert(slot_wakers::progress_of(self.elems@) =~= held.update(
                            i as int,
                            after,
                        ));
                        trace = trace.push(event);
                        assert(trace.drop_last() =~= done);
                        let polled = group_ledger::poll_notes(
                            ledger::turns_of(done),
                            turns.len() as int,
                        );
                        assert(group_ledger::poll_notes(
                            ledger::turns_of(trace),
                            turns.len() as int,
                        ) =~= polled.push(
                            GroupNote::Polled { index: i as int, ready: signal is Ready },
                        ));
                        assert(self.log() =~= log + (begin_notes + group_ledger::poll_notes(
                            ledger::turns_of(trace),
                            turns.len() as int,
                        )));
                        assert(flags[i as int]);
                        assert(all[done.len() - earlier.len()] == i);
                    }
                    match signal {
                        Poll::Ready(Ok(())) => {
                            self.remaining = self.remaining - 1;
                        },
                        Poll::Ready(Err(error)) => {
                            proof {
                                let visit = Visit {
                                    group: group as int,
                                    from: earlier.len() as int,
                                    to: trace.len() as int,
                                    before,
                                    after: before,
                                };
                                assert(trace.take(visit.from) =~= earlier);
                                lemma_visit(
                                    lock,
                                    start,
                                    queue,
                                    seen,
                                    earlier,
                                    trace,
                                    visits,
                                    visit,
                                    refills,
                                );
                                progress::lemma_all_live(start, trace);
                                let all_notes = group_ledger::lemma_visit_kept(
                        lock,
                        task_waker,
                        queue,
                        notes,
                        turns,
                        visits,
                        refills,
                        visit,
                        ledger::turns_of(trace),
                        true,
                    );
                                assert(self.log() =~= log + all_notes);
                                assert(group_ledger::added(log, self.log()) =~= all_notes);
                                assert(runs(
                                    lock,
                                    task_waker,
                                    start,
                                    slot_wakers::progress_of(self.elems@),
                                    queue,
                                    self.queued(),
                                    remaining,
                                    seen,
                                    gives,
                                    trace,
                                    visits.push(visit),
                                    refills,
                                ));
                            }
                            return Poll::Ready(Err(error));
                        },
                        Poll::Pending => {},
                    }
                }
                i = i + 1;
            }
            proof {
                ready_set::lemma_listing_split(
                    flags,
                    first as int,
                    end as int,
                    first + GROUP_SIZE,
                );
                ready_set::lemma_listing_empty(flags, end as int, first + GROUP_SIZE);
                assert(trace.take(earlier.len() as int) =~= earlier);
                progress::lemma_all_live(start, trace);
            }
            if self.remaining == 0 {
                proof {
                    let visit = Visit {
                        group: group as int,
                        from: earlier.len() as int,
                        to: trace.len() as int,
                        before,
                        after: before,
                    };
                    let result = Poll::Ready(Ok::<(), T::Error>(()));
                    lemma_visit(
                        lock,
                        start,
                        queue,
                        result,
                        earlier,
                        trace,
                        visits,
                        visit,
                        refills,
                    );
                    let all_notes = group_ledger::lemma_visit_kept(
                        lock,
                        task_waker,
                        queue,
                        notes,
                        turns,
                        visits,
                        refills,
                        visit,
                        ledger::turns_of(trace),
                        true,
                    );
                    assert(self.log() =~= log + all_notes);
                    assert(group_ledger::added(log, self.log()) =~= all_notes);
                    assert(runs(
                        lock,
                        task_waker,
                        start,
                        slot_wakers::progress_of(self.elems@),
                        queue,
                        self.queued(),
                        remaining,
                        result,
                        gives,
                        trace,
                        visits.push(visit),
                        refills,
                    ));
                }
                return Poll::Ready(Ok(()));
            }
            // If the group was woken while it was polled, assume that one of its
            // futures wanted to yield.
            let ghost finish_log = self.log();
            let woken: bool = self.finish(group);
            proof {
                let after = choose|state: SharedState<Waker>|
                    {
                        &&& #[trigger] exchanged(lock, state, state.finished())
                        &&& woken == (state.polling != Some(group as int))
                        &&& self.log() == finish_log.push(
                            GroupNote::Did {
                                before: state,
                                act: Act::Finish,
                                after: state.finished(),
                            },
                        )
                    };
                let visit = Visit {
                    group: group as int,
                    from: earlier.len() as int,
                    to: trace.len() as int,
                    before,
                    after,
                };
                lemma_visit(
                    lock,
                    start,
                    queue,
                    Poll::<Result<(), T::Error>>::Pending,
                    earlier,
                    trace,
                    visits,
                    visit,
                    refills,
                );
                notes = group_ledger::lemma_visit_kept(
                        lock,
                        task_waker,
                        queue,
                        notes,
                        turns,
                        visits,
                        refills,
                        visit,
                        ledger::turns_of(trace),
                        false,
                    );
                assert(self.log() =~= log + notes);
                assert(group_ledger::added(log, self.log()) =~= notes);
                visits = visits.push(visit);
            }
            if budget.spend(woken) {
                task::wake_by_ref(cx.waker());
                assert(runs(
                    lock,
                    task_waker,
                    start,
                    slot_wakers::progress_of(self.elems@),
                    queue,
                    self.queued(),
                    remaining,
                    Poll::<Result<(), T::Error>>::Pending,
                    gives,
                    trace,
                    visits,
                    refills,
                ));
                return Poll::Pending;
            }
        }
    }
}

} // verus!
