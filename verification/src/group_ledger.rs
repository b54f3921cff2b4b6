//! What a task does to the groups of its futures, and when it polls them, in one sequence.
//!
//! What is shared with the wakers of the groups stands behind a lock. As in
//! [`ledger`](crate::ledger), the task holds a [`GroupLedger`], in which every act that is the
//! task's to do, and every poll of a future, is noted, and what is shared can be changed in
//! no other way than by showing it, or by a call of a waker.
use crate::maybe_done::PollElem;
use crate::progress;
use crate::ready_set;
use crate::task;
use crate::waking::Call;
use crate::wake_groups;
use crate::wake_groups::{Act, GroupLock, Shared, SharedState, Visit};
use std::task::{Context, Poll, Waker};
use vstd::prelude::*;

verus! {

/// One thing that a task has done.
pub ghost enum GroupNote {
    /// What is shared was in the state `before`, and `act` has led to `after`.
    Did { before: SharedState<Waker>, act: Act<Waker>, after: SharedState<Waker> },
    /// Element `index` was polled. Then it was `ready`, or has not completed.
    Polled { index: int, ready: bool },
}

/// What a task has done to what it shares, and to its futures.
pub struct GroupLedger {
    id: Ghost<int>,
    log: Ghost<Seq<GroupNote>>,
}

/// What a task shares with the wakers of its groups, and changes only as it notes in its
/// ledger.
pub struct GuardedGroups {
    shared: Shared<Waker>,
    id: Ghost<int>,
}

impl View for GuardedGroups {
    type V = SharedState<Waker>;

    closed spec fn view(&self) -> SharedState<Waker> {
        self.shared@
    }
}

impl GroupLedger {
    /// What tells the groups that the ledger is of from others.
    pub closed spec fn id(&self) -> int {
        self.id@
    }

    /// What was noted, one after the other.
    pub closed spec fn log(&self) -> Seq<GroupNote> {
        self.log@
    }

    /// Polls element `index`, which has not completed, and notes it.
    pub(crate) fn poll_elem<T: PollElem>(
        &mut self,
        elems: &mut Vec<T>,
        index: usize,
        cx: &mut Context<'_>,
    ) -> (signal: Poll<Result<(), T::Error>>)
        requires
            index < old(elems).len(),
            old(elems)[index as int].progress() is Pending,
            progress::live(old(elems)[index as int].progress()),
        ensures
            final(self).id() == old(self).id(),
            final(self).log() == old(self).log().push(
                GroupNote::Polled { index: index as int, ready: signal is Ready },
            ),
            final(elems)@ == old(elems)@.update(index as int, final(elems)@[index as int]),
            progress::polled(
                old(elems)[index as int].progress(),
                final(elems)[index as int].progress(),
                task::context_waker(*old(cx)),
                signal,
            ),
            T::gives(
                old(elems)[index as int].progress()->Pending_0,
                task::context_waker(*old(cx)),
                progress::returned(final(elems)[index as int].progress(), signal),
            ),
    {
        let signal: Poll<Result<(), T::Error>> = elems[index].poll_elem(cx);
        let ghost note = GroupNote::Polled { index: index as int, ready: signal is Ready };
        proof {
            self.log = Ghost(self.log@.push(note));
            assert(elems@ =~= old(elems)@.update(index as int, elems@[index as int]));
        }
        signal
    }
}

impl GuardedGroups {
    /// What tells the groups from others. Of two that were made it is not known to be the
    /// same.
    pub closed spec fn id(&self) -> int {
        self.id@
    }

    pub closed spec fn wf(&self) -> bool {
        self.shared.wf()
    }

    /// Nothing is woken and nobody waits, and nothing is noted.
    pub(crate) fn new(groups: usize) -> (result: (GuardedGroups, GroupLedger))
        requires
            groups + 64 <= usize::MAX,
        ensures
            result.0.wf(),
            result.0@.ready.len() >= groups,
            result.0@ == SharedState::<Waker>::initial(result.0@.ready.len()),
            result.1.id() == result.0.id(),
            result.1.log() == Seq::<GroupNote>::empty(),
    {
        let shared: Shared<Waker> = Shared::new(groups);
        let ghost id: int = arbitrary();
        let ghost log = Seq::<GroupNote>::empty();
        (GuardedGroups { shared, id: Ghost(id) }, GroupLedger { id: Ghost(id), log: Ghost(log) })
    }

    /// Wakes `group`, in `call`. Returns the waker to wake: the one of the task that polls
    /// the futures, if that task may be waiting for a wake-up and no group was woken yet.
    pub(crate) fn wake_by_ref(
        &mut self,
        call: &mut Call<SharedState<Waker>>,
        group: usize,
    ) -> (parent: Option<Waker>)
        requires
            old(self).wf(),
            group < old(self)@.ready.len(),
        ensures
            final(self).wf(),
            final(self).id() == old(self).id(),
            final(call).log() == old(call).log().push((old(self)@, group as int, final(self)@)),
            final(self)@ == old(self)@.woken(group as int),
            parent == old(self)@.notification(),
    {
        let ghost before = self@;
        let parent: Option<Waker> = self.shared.wake_by_ref(group);
        call.note(Ghost(before), Ghost(group as int), Ghost(self@));
        parent
    }

    /// Appends the groups that were woken to `queue`, in ascending order, and
    /// forgets that they were.
    pub(crate) fn take_ready(&mut self, ledger: &mut GroupLedger, queue: &mut Vec<usize>)
        requires
            old(self).wf(),
            old(ledger).id() == old(self).id(),
        ensures
            final(self).wf(),
            final(self).id() == old(self).id(),
            final(ledger).id() == old(ledger).id(),
            final(ledger).log() == old(ledger).log().push(
                GroupNote::Did { before: old(self)@, act: Act::Take, after: final(self)@ },
            ),
            final(self)@ == old(self)@.emptied(),
            final(queue)@ == old(queue)@ + old(self)@.listed(),
            old(self)@.ready.len() <= usize::MAX,
    {
        let ghost before = self@;
        self.shared.take_ready(queue);
        let ghost note = GroupNote::Did { before, act: Act::Take, after: self@ };
        proof {
            ledger.log = Ghost(ledger.log@.push(note));
        }
    }

    /// Records that polling `group` begins.
    pub(crate) fn begin(&mut self, ledger: &mut GroupLedger, group: usize)
        requires
            old(self).wf(),
            old(ledger).id() == old(self).id(),
        ensures
            final(self).wf(),
            final(self).id() == old(self).id(),
            final(ledger).id() == old(ledger).id(),
            final(ledger).log() == old(ledger).log().push(
                GroupNote::Did {
                    before: old(self)@,
                    act: Act::Begin(group as int),
                    after: final(self)@,
                },
            ),
            final(self)@ == old(self)@.begun(group as int),
    {
        let ghost before = self@;
        self.shared.begin(group);
        let ghost note = GroupNote::Did { before, act: Act::Begin(group as int), after: self@ };
        proof {
            ledger.log = Ghost(ledger.log@.push(note));
        }
    }

    /// Records that polling `group` has ended. Returns whether the group was woken since
    /// it began.
    pub(crate) fn finish(&mut self, ledger: &mut GroupLedger, group: usize) -> (woken: bool)
        requires
            old(self).wf(),
            old(ledger).id() == old(self).id(),
        ensures
            final(self).wf(),
            final(self).id() == old(self).id(),
            final(ledger).id() == old(ledger).id(),
            final(ledger).log() == old(ledger).log().push(
                GroupNote::Did { before: old(self)@, act: Act::Finish, after: final(self)@ },
            ),
            final(self)@ == old(self)@.finished(),
            woken == (old(self)@.polling != Some(group as int)),
    {
        let ghost before = self@;
        let woken: bool = self.shared.finish(group);
        let ghost note = GroupNote::Did { before, act: Act::Finish, after: self@ };
        proof {
            ledger.log = Ghost(ledger.log@.push(note));
        }
        woken
    }

    /// If no group was woken, registers `waker` as the waker of the task, and announces that
    /// the task may wait for a wake-up. The waker that was registered before is dropped.
    /// Returns whether it did.
    pub(crate) fn park(&mut self, ledger: &mut GroupLedger, waker: Waker) -> (parked: bool)
        requires
            old(self).wf(),
            old(ledger).id() == old(self).id(),
        ensures
            final(self).wf(),
            final(self).id() == old(self).id(),
            final(ledger).id() == old(ledger).id(),
            parked == ready_set::none_set(old(self)@.ready),
            parked ==> {
                &&& final(self)@ == old(self)@.announced(waker)
                &&& final(ledger).log() == old(ledger).log().push(
                    GroupNote::Did {
                        before: old(self)@,
                        act: Act::Announce(waker),
                        after: final(self)@,
                    },
                )
                &&& task::dropped(old(self)@.parent)
            },
            !parked ==> final(self)@ == old(self)@ && final(ledger).log() == old(ledger).log()
                && task::dropped(waker),
    {
        let ghost before = self@;
        let ghost copy = waker;
        if !self.shared.is_idle() {
            task::discard(waker);
            return false;
        }
        let previous: Option<Waker> = self.shared.park(waker);
        task::discard(previous);
        let ghost note = GroupNote::Did { before, act: Act::Announce(copy), after: self@ };
        proof {
            ledger.log = Ghost(ledger.log@.push(note));
        }
        true
    }

    /// Removes the waker of the task that polls the futures, so that that task is
    /// not woken any more.
    pub(crate) fn take_parent(&mut self, ledger: &mut GroupLedger) -> (parent: Option<Waker>)
        requires
            old(self).wf(),
            old(ledger).id() == old(self).id(),
        ensures
            final(self).wf(),
            final(self).id() == old(self).id(),
            final(ledger).id() == old(ledger).id(),
            final(ledger).log() == old(ledger).log().push(
                GroupNote::Did { before: old(self)@, act: Act::Close, after: final(self)@ },
            ),
            final(self)@ == old(self)@.closed(),
            parent == old(self)@.parent,
    {
        let ghost before = self@;
        let parent: Option<Waker> = self.shared.take_parent();
        let ghost note = GroupNote::Did { before, act: Act::Close, after: self@ };
        proof {
            ledger.log = Ghost(ledger.log@.push(note));
        }
        parent
    }
}

/// How often each thing was done.
pub ghost struct Counts {
    /// How often polling a group began.
    pub begins: int,
    /// How often polling a group has ended.
    pub finishes: int,
    /// How often the woken groups were taken.
    pub takes: int,
    /// How often an element was polled.
    pub polls: int,
}

/// How often each thing was done, by these notes.
pub open spec fn counts(notes: Seq<GroupNote>) -> Counts
    decreases notes.len(),
{
    if notes.len() == 0 {
        Counts { begins: 0, finishes: 0, takes: 0, polls: 0 }
    } else {
        let earlier = counts(notes.drop_last());
        match notes.last() {
            GroupNote::Polled { .. } => Counts { polls: earlier.polls + 1, ..earlier },
            GroupNote::Did { before: _, act: Act::Begin(_), after: _ } => Counts {
                begins: earlier.begins + 1,
                ..earlier
            },
            GroupNote::Did { before: _, act: Act::Finish, after: _ } => Counts {
                finishes: earlier.finishes + 1,
                ..earlier
            },
            GroupNote::Did { before: _, act: Act::Take, after: _ } => Counts {
                takes: earlier.takes + 1,
                ..earlier
            },
            _ => earlier,
        }
    }
}

/// Whether `note` registers a copy of `waker` as the waker of the task.
pub open spec fn announces(note: GroupNote, waker: Waker) -> bool {
    note matches GroupNote::Did { before: _, act: Act::Announce(copy), after: _ } && task::copied(
        waker,
        copy,
    )
}

/// Whether what note `k` is of was to be done then: polling the next of the groups to poll
/// begins, or one of its elements is polled, the next of `turns`, or this ends, or the woken
/// groups are taken, once all others were polled. The waker of the task, of which `waker` is
/// one, is registered if the call is to leave the task `idle`, by the last thing done. No
/// group is woken, and the waker of the task is not removed.
pub open spec fn in_place(
    lock: GroupLock,
    waker: Waker,
    queue: Seq<usize>,
    notes: Seq<GroupNote>,
    turns: Seq<(int, bool)>,
    visits: Seq<Visit>,
    refills: Seq<SharedState<Waker>>,
    idle: bool,
    k: int,
) -> bool {
    let count = counts(notes.take(k));
    let groups = wake_groups::supply(queue, refills.take(count.takes));
    match notes[k] {
        GroupNote::Polled { index, ready } => {
            &&& count.begins == count.finishes + 1
            &&& count.finishes < visits.len()
            &&& visits[count.finishes].from <= count.polls < visits[count.finishes].to
            &&& count.polls < turns.len()
            &&& turns[count.polls] == (index, ready)
        },
        GroupNote::Did { before, act, after } => {
            &&& wake_groups::exchanged(lock, before, after)
            &&& before.done(act, after)
            &&& match act {
                Act::Begin(group) => {
                    &&& count.begins == count.finishes
                    &&& count.begins < visits.len()
                    &&& count.begins < groups.len()
                    &&& group == visits[count.begins].group
                    &&& before == visits[count.begins].before
                },
                Act::Finish => {
                    &&& count.begins == count.finishes + 1
                    &&& count.finishes < visits.len()
                    &&& before == visits[count.finishes].after
                    &&& count.polls == visits[count.finishes].to
                },
                Act::Take => {
                    &&& count.begins == count.finishes
                    &&& count.takes < refills.len()
                    &&& before == refills[count.takes]
                    &&& count.begins == groups.len()
                },
                Act::Announce(copy) => {
                    &&& idle
                    &&& k == notes.len() - 1
                    &&& count.begins == count.finishes
                    &&& count.begins == groups.len()
                    &&& task::copied(waker, copy)
                    &&& task::dropped(before.parent)
                },
                Act::Wake(_) | Act::Read | Act::Close => false,
            }
        },
    }
}

/// Whether all of these notes are of what was to be done.
pub open spec fn all_in_place(
    lock: GroupLock,
    waker: Waker,
    queue: Seq<usize>,
    notes: Seq<GroupNote>,
    turns: Seq<(int, bool)>,
    visits: Seq<Visit>,
    refills: Seq<SharedState<Waker>>,
    idle: bool,
) -> bool {
    forall|k: int|
        0 <= k < notes.len() ==> #[trigger] in_place(
            lock,
            waker,
            queue,
            notes,
            turns,
            visits,
            refills,
            idle,
            k,
        )
}

/// Whether a task that is to visit groups with these polls, first those of `queue` and then
/// those that are taken in the states of `refills`, does what `notes` are of, and nothing
/// else, as it is to. It is left `idle` if `waker`, its waker, was registered last. The last
/// visit may be `unfinished`.
#[verifier::opaque]
pub open spec fn kept(
    lock: GroupLock,
    waker: Waker,
    queue: Seq<usize>,
    notes: Seq<GroupNote>,
    turns: Seq<(int, bool)>,
    visits: Seq<Visit>,
    refills: Seq<SharedState<Waker>>,
    idle: bool,
    unfinished: bool,
) -> bool {
    &&& all_in_place(lock, waker, queue, notes, turns, visits, refills, idle)
    &&& idle ==> notes.len() > 0 && announces(notes.last(), waker)
    &&& counts(notes) == (Counts {
        begins: visits.len() as int,
        finishes: visits.len() - (if unfinished {
            1int
        } else {
            0int
        }),
        takes: refills.len() as int,
        polls: turns.len() as int,
    })
}

/// What was noted in addition to `log`.
pub open spec fn added(log: Seq<GroupNote>, longer: Seq<GroupNote>) -> Seq<GroupNote> {
    longer.skip(log.len() as int)
}

/// Nothing was done.
pub proof fn lemma_kept_empty(lock: GroupLock, waker: Waker, queue: Seq<usize>)
    ensures
        kept(
            lock,
            waker,
            queue,
            Seq::empty(),
            Seq::empty(),
            Seq::empty(),
            Seq::empty(),
            false,
            false,
        ),
{
    reveal(kept);
}

/// Nothing was done less often later.
proof fn lemma_counts_grow(notes: Seq<GroupNote>, k: int)
    requires
        0 <= k <= notes.len(),
    ensures
        0 <= counts(notes.take(k)).takes <= counts(notes).takes,
    decreases notes.len(),
{
    if k == notes.len() {
        assert(notes.take(k) =~= notes);
        if notes.len() > 0 {
            lemma_counts_grow(notes.drop_last(), notes.len() - 1);
            assert(notes.drop_last().take(notes.len() - 1) =~= notes.drop_last());
        }
    } else {
        lemma_counts_grow(notes.drop_last(), k);
        assert(notes.drop_last().take(k) =~= notes.take(k));
    }
}

/// What was to be done was so also where more polls, visits and states follow.
proof fn lemma_in_place_longer(
    lock: GroupLock,
    waker: Waker,
    queue: Seq<usize>,
    notes: Seq<GroupNote>,
    turns: Seq<(int, bool)>,
    visits: Seq<Visit>,
    refills: Seq<SharedState<Waker>>,
    more_turns: Seq<(int, bool)>,
    more_visits: Seq<Visit>,
    more_refills: Seq<SharedState<Waker>>,
)
    requires
        all_in_place(lock, waker, queue, notes, turns, visits, refills, false),
        counts(notes).takes == refills.len(),
        turns.len() <= more_turns.len(),
        visits.len() <= more_visits.len(),
        refills.len() <= more_refills.len(),
        forall|j: int| 0 <= j < turns.len() ==> #[trigger] more_turns[j] == turns[j],
        forall|j: int| 0 <= j < visits.len() ==> #[trigger] more_visits[j] == visits[j],
        forall|j: int| 0 <= j < refills.len() ==> #[trigger] more_refills[j] == refills[j],
    ensures
        all_in_place(lock, waker, queue, notes, more_turns, more_visits, more_refills, false),
{
    assert forall|k: int| 0 <= k < notes.len() implies #[trigger] in_place(
        lock,
        waker,
        queue,
        notes,
        more_turns,
        more_visits,
        more_refills,
        false,
        k,
    ) by {
        assert(in_place(lock, waker, queue, notes, turns, visits, refills, false, k));
        lemma_counts_grow(notes, k);
        let count = counts(notes.take(k));
        assert(more_refills.take(count.takes) =~= refills.take(count.takes));
        lemma_counts_positive(notes.take(k));
    }
}

/// Nothing was done less often than never.
proof fn lemma_counts_positive(notes: Seq<GroupNote>)
    ensures
        counts(notes).begins >= 0,
        counts(notes).finishes >= 0,
        counts(notes).takes >= 0,
        counts(notes).polls >= 0,
    decreases notes.len(),
{
    if notes.len() > 0 {
        lemma_counts_positive(notes.drop_last());
    }
}

/// One thing more.
proof fn lemma_in_place_push(
    lock: GroupLock,
    waker: Waker,
    queue: Seq<usize>,
    notes: Seq<GroupNote>,
    note: GroupNote,
    turns: Seq<(int, bool)>,
    visits: Seq<Visit>,
    refills: Seq<SharedState<Waker>>,
    idle: bool,
)
    requires
        all_in_place(lock, waker, queue, notes, turns, visits, refills, false),
        in_place(
            lock,
            waker,
            queue,
            notes.push(note),
            turns,
            visits,
            refills,
            idle,
            notes.len() as int,
        ),
    ensures
        all_in_place(lock, waker, queue, notes.push(note), turns, visits, refills, idle),
{
    let longer = notes.push(note);
    assert forall|k: int| 0 <= k < longer.len() implies #[trigger] in_place(
        lock,
        waker,
        queue,
        longer,
        turns,
        visits,
        refills,
        idle,
        k,
    ) by {
        if k < notes.len() {
            assert(in_place(lock, waker, queue, notes, turns, visits, refills, false, k));
            assert(longer.take(k) =~= notes.take(k));
        }
    }
}

/// The woken groups are taken, once all others were polled.
pub proof fn lemma_take_kept(
    lock: GroupLock,
    waker: Waker,
    queue: Seq<usize>,
    notes: Seq<GroupNote>,
    turns: Seq<(int, bool)>,
    visits: Seq<Visit>,
    refills: Seq<SharedState<Waker>>,
    state: SharedState<Waker>,
)
    requires
        kept(lock, waker, queue, notes, turns, visits, refills, false, false),
        visits.len() == wake_groups::supply(queue, refills).len(),
        wake_groups::exchanged(lock, state, state.emptied()),
    ensures
        kept(
            lock,
            waker,
            queue,
            notes.push(GroupNote::Did { before: state, act: Act::Take, after: state.emptied() }),
            turns,
            visits,
            refills.push(state),
            false,
            false,
        ),
{
    reveal(kept);
    let note = GroupNote::Did { before: state, act: Act::Take, after: state.emptied() };
    let longer = notes.push(note);
    let more = refills.push(state);
    lemma_in_place_longer(
        lock,
        waker,
        queue,
        notes,
        turns,
        visits,
        refills,
        turns,
        visits,
        more,
    );
    assert(longer.take(notes.len() as int) =~= notes);
    assert(longer.drop_last() =~= notes);
    assert(more.take(refills.len() as int) =~= refills);
    lemma_in_place_push(lock, waker, queue, notes, note, turns, visits, more, false);
}

/// The waker of the task is registered, once all groups were polled.
pub proof fn lemma_announce_kept(
    lock: GroupLock,
    waker: Waker,
    queue: Seq<usize>,
    notes: Seq<GroupNote>,
    turns: Seq<(int, bool)>,
    visits: Seq<Visit>,
    refills: Seq<SharedState<Waker>>,
    state: SharedState<Waker>,
    copy: Waker,
)
    requires
        kept(lock, waker, queue, notes, turns, visits, refills, false, false),
        visits.len() == wake_groups::supply(queue, refills).len(),
        wake_groups::exchanged(lock, state, state.announced(copy)),
        ready_set::none_set(state.ready),
        task::copied(waker, copy),
        task::dropped(state.parent),
    ensures
        kept(
            lock,
            waker,
            queue,
            notes.push(
                GroupNote::Did {
                    before: state,
                    act: Act::Announce(copy),
                    after: state.announced(copy),
                },
            ),
            turns,
            visits,
            refills,
            true,
            false,
        ),
{
    reveal(kept);
    let note = GroupNote::Did {
        before: state,
        act: Act::Announce(copy),
        after: state.announced(copy),
    };
    let longer = notes.push(note);
    assert(longer.take(notes.len() as int) =~= notes);
    assert(longer.drop_last() =~= notes);
    assert(refills.take(refills.len() as int) =~= refills);
    lemma_in_place_push(lock, waker, queue, notes, note, turns, visits, refills, true);
}

/// The notes of the polls of `turns` from `from` on.
pub open spec fn poll_notes(turns: Seq<(int, bool)>, from: int) -> Seq<GroupNote> {
    Seq::new(
        (turns.len() - from) as nat,
        |k: int| GroupNote::Polled { index: turns[from + k].0, ready: turns[from + k].1 },
    )
}

/// The elements of a group are polled, after this began.
proof fn lemma_polls_in_place(
    lock: GroupLock,
    waker: Waker,
    queue: Seq<usize>,
    notes: Seq<GroupNote>,
    turns: Seq<(int, bool)>,
    visits: Seq<Visit>,
    refills: Seq<SharedState<Waker>>,
    from: int,
    n: int,
)
    requires
        all_in_place(lock, waker, queue, notes, turns, visits, refills, false),
        0 <= from <= turns.len(),
        0 <= n <= turns.len() - from,
        visits.len() > 0,
        counts(notes).begins == visits.len(),
        counts(notes).finishes == visits.len() - 1,
        counts(notes).polls == from,
        visits.last().from == from,
        visits.last().to == turns.len(),
    ensures
        all_in_place(
            lock,
            waker,
            queue,
            notes + poll_notes(turns, from).take(n),
            turns,
            visits,
            refills,
            false,
        ),
        counts(notes + poll_notes(turns, from).take(n)) == (Counts {
            polls: from + n,
            ..counts(notes)
        }),
    decreases n,
{
    let all = poll_notes(turns, from);
    if n == 0 {
        assert(notes + all.take(0) =~= notes);
    } else {
        lemma_polls_in_place(lock, waker, queue, notes, turns, visits, refills, from, n - 1);
        let earlier = notes + all.take(n - 1);
        let longer = notes + all.take(n);
        assert(longer =~= earlier.push(all[n - 1]));
        assert(longer.take(earlier.len() as int) =~= earlier);
        assert(longer.drop_last() =~= earlier);
        lemma_in_place_push(
            lock,
            waker,
            queue,
            earlier,
            all[n - 1],
            turns,
            visits,
            refills,
            false,
        );
    }
}

/// One more group is polled: this begins, its elements are polled, and this ends, unless it is
/// `unfinished`.
pub proof fn lemma_visit_kept(
    lock: GroupLock,
    waker: Waker,
    queue: Seq<usize>,
    notes: Seq<GroupNote>,
    turns: Seq<(int, bool)>,
    visits: Seq<Visit>,
    refills: Seq<SharedState<Waker>>,
    visit: Visit,
    longer: Seq<(int, bool)>,
    unfinished: bool,
) -> (result: Seq<GroupNote>)
    requires
        kept(lock, waker, queue, notes, turns, visits, refills, false, false),
        visits.len() < wake_groups::supply(queue, refills).len(),
        turns.len() <= longer.len(),
        forall|j: int| 0 <= j < turns.len() ==> #[trigger] longer[j] == turns[j],
        visit.from == turns.len(),
        visit.to == longer.len(),
        wake_groups::exchanged(lock, visit.before, visit.before.begun(visit.group)),
        !unfinished ==> wake_groups::exchanged(lock, visit.after, visit.after.finished()),
    ensures
        result == visit_notes(notes, turns, visit, longer, unfinished),
        kept(
            lock,
            waker,
            queue,
            result,
            longer,
            visits.push(visit),
            refills,
            false,
            unfinished,
        ),
{
    reveal(kept);
    let more = visits.push(visit);
    let begin = GroupNote::Did {
        before: visit.before,
        act: Act::Begin(visit.group),
        after: visit.before.begun(visit.group),
    };
    lemma_in_place_longer(
        lock,
        waker,
        queue,
        notes,
        turns,
        visits,
        refills,
        longer,
        more,
        refills,
    );
    let begun = notes.push(begin);
    assert(begun.take(notes.len() as int) =~= notes);
    assert(begun.drop_last() =~= notes);
    assert(refills.take(refills.len() as int) =~= refills);
    lemma_in_place_push(lock, waker, queue, notes, begin, longer, more, refills, false);
    let from = turns.len() as int;
    let n = longer.len() - from;
    lemma_polls_in_place(lock, waker, queue, begun, longer, more, refills, from, n);
    assert(poll_notes(longer, from).take(n) =~= poll_notes(longer, from));
    let polled = begun + poll_notes(longer, from);
    if unfinished {
        polled
    } else {
        let finish = GroupNote::Did {
            before: visit.after,
            act: Act::Finish,
            after: visit.after.finished(),
        };
        let finished = polled.push(finish);
        assert(finished.take(polled.len() as int) =~= polled);
        assert(finished.drop_last() =~= polled);
        lemma_in_place_push(lock, waker, queue, polled, finish, longer, more, refills, false);
        finished
    }
}

/// What is noted when one more group was polled.
pub open spec fn visit_notes(
    notes: Seq<GroupNote>,
    turns: Seq<(int, bool)>,
    visit: Visit,
    longer: Seq<(int, bool)>,
    unfinished: bool,
) -> Seq<GroupNote> {
    let polled = notes.push(
        GroupNote::Did {
            before: visit.before,
            act: Act::Begin(visit.group),
            after: visit.before.begun(visit.group),
        },
    ) + poll_notes(longer, turns.len() as int);
    if unfinished {
        polled
    } else {
        polled.push(
            GroupNote::Did {
                before: visit.after,
                act: Act::Finish,
                after: visit.after.finished(),
            },
        )
    }
}

} // verus!
