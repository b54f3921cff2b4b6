//! Why no wake-up of a group is missed.
//!
//! What the task and the wakers do while they hold the lock of
//! [`wake_groups`](crate::wake_groups) is one act, and finds what the act before it has
//! left. A task that finds no group woken registers its waker in the same act.
//! [`lemma_announced_wait_ends`] is about any such sequence of acts. [`GroupHandshake`] is a
//! model in which the acts are made of smaller steps, on single words of the set, which
//! interleave in any way.
//!
//! In the model, a wake-up inserts its group into the set of woken groups word by word,
//! from the first level up, until it comes to a word that has a set bit. The task takes the
//! words from the root down. A task that finds no group announces that it may wait,
//! and then looks at the root once more. The wake-up that has set the first bit of
//! the root looks whether the task may be waiting. So one of them sees what the other
//! has done, and a wake-up that has stopped before the root leaves it to another one.
use crate::handshake::Phase;
use crate::ready_set;
use crate::wake_groups::{Act, SharedState};
use vstd::prelude::*;

verus! {

/// Whether doing `acts`, one after the other, leads from each of the states to the next.
pub open spec fn history<W>(states: Seq<SharedState<W>>, acts: Seq<Act<W>>) -> bool {
    &&& states.len() == acts.len() + 1
    &&& forall|k: int|
        0 <= k < acts.len() ==> states[k].done(#[trigger] acts[k], states[k + 1])
}

/// Whether act `k` is a wake-up that hands out `waker`, to be woken.
pub open spec fn hands_out<W>(
    states: Seq<SharedState<W>>,
    acts: Seq<Act<W>>,
    k: int,
    waker: W,
) -> bool {
    acts[k] is Wake && states[k].notification() == Some(waker)
}

/// Whether no act after `from` and before `to` registers or removes the waker of the task.
pub open spec fn waker_kept<W>(acts: Seq<Act<W>>, from: int, to: int) -> bool {
    forall|k: int| from < k < to ==> !(#[trigger] acts[k] is Announce) && !(acts[k] is Close)
}

/// A task that has announced that it may wait stays so until its waker is handed out.
pub proof fn lemma_stays_announced<W>(
    states: Seq<SharedState<W>>,
    acts: Seq<Act<W>>,
    from: int,
    to: int,
    waker: W,
)
    requires
        history(states, acts),
        0 <= from < to <= acts.len(),
        acts[from] == Act::Announce(waker),
        waker_kept(acts, from, to),
    ensures
        (exists|k: int| from < k < to && #[trigger] hands_out(states, acts, k, waker)) || (
        states[to].parked && states[to].parent == Some(waker)),
    decreases to - from,
{
    assert(states[to - 1].done(acts[to - 1], states[to]));
    if from + 1 < to {
        lemma_stays_announced(states, acts, from, to - 1, waker);
        if !(exists|k: int| from < k < to && #[trigger] hands_out(states, acts, k, waker)) {
            assert(states[to - 1].parked && states[to - 1].parent == Some(waker));
            assert(!hands_out(states, acts, to - 1, waker));
        }
    }
}

/// Once the waker of the task was removed, no wake-up hands out a waker until one is
/// registered again.
pub proof fn lemma_closed_wakes_nobody<W>(
    states: Seq<SharedState<W>>,
    acts: Seq<Act<W>>,
    from: int,
    to: int,
)
    requires
        history(states, acts),
        0 <= from < to <= acts.len(),
        acts[from] == Act::<W>::Close,
        forall|k: int| from < k < to ==> !(#[trigger] acts[k] is Announce),
    ensures
        states[to].parent is None,
        states[to].notification() is None,
    decreases to - from,
{
    assert(states[to - 1].done(acts[to - 1], states[to]));
    if from + 1 < to {
        lemma_closed_wakes_nobody(states, acts, from, to - 1);
        assert(!(acts[to - 1] is Announce));
    }
}

/// No wake-up is lost: where the task has registered `waker`, has then found no group woken,
/// and waits, its waker is handed out by the time a group is woken. While it waits, only
/// wakers do anything.
pub proof fn lemma_wait_ends<W>(
    states: Seq<SharedState<W>>,
    acts: Seq<Act<W>>,
    registers: int,
    waits: int,
    wakes: int,
    waker: W,
)
    requires
        history(states, acts),
        0 <= registers < waits <= wakes < acts.len(),
        acts[registers] == Act::Announce(waker),
        waker_kept(acts, registers, waits),
        ready_set::none_set(states[waits].ready),
        forall|k: int|
            waits <= k < wakes ==> #[trigger] acts[k] is Wake || acts[k] is Read,
        acts[wakes] is Wake,
    ensures
        exists|k: int| registers < k <= wakes && #[trigger] hands_out(states, acts, k, waker),
    decreases wakes - waits,
{
    lemma_stays_announced(states, acts, registers, waits, waker);
    if states[waits].parked && states[waits].parent == Some(waker) {
        if acts[waits] is Wake {
            assert(hands_out(states, acts, waits, waker));
        } else {
            assert(states[waits].done(acts[waits], states[waits + 1]));
            assert forall|k: int| registers < k < waits + 1 implies !(#[trigger] acts[k]
                is Announce) && !(acts[k] is Close) by {}
            lemma_wait_ends(states, acts, registers, waits + 1, wakes, waker);
        }
    }
}

/// A group that was woken, and is not among the woken ones any more, was taken in between.
pub proof fn lemma_every_woken_group_taken<W>(
    states: Seq<SharedState<W>>,
    acts: Seq<Act<W>>,
    from: int,
    to: int,
    group: int,
)
    requires
        history(states, acts),
        0 <= from <= to < states.len(),
        0 <= group < states[from].ready.len(),
        states[from].ready[group],
        !states[to].ready[group],
    ensures
        exists|k: int| from <= k < to && #[trigger] acts[k] is Take && states[k].ready[group],
    decreases to - from,
{
    if from < to {
        assert(states[from].done(acts[from], states[from + 1]));
        if acts[from] is Take {
        } else {
            lemma_every_woken_group_taken(states, acts, from + 1, to, group);
        }
    }
}

/// A group that is among the woken ones, and was not at first, was woken in between. So a
/// group that is taken was woken since it was taken the last time.
pub proof fn lemma_ready_since_woken<W>(
    states: Seq<SharedState<W>>,
    acts: Seq<Act<W>>,
    from: int,
    to: int,
    group: int,
)
    requires
        history(states, acts),
        0 <= from <= to < states.len(),
        0 <= group < states[from].ready.len(),
        !states[from].ready[group],
        states[to].ready[group],
    ensures
        exists|k: int| from <= k < to && #[trigger] acts[k] == Act::<W>::Wake(group),
    decreases to - from,
{
    if from < to {
        assert(states[from].done(acts[from], states[from + 1]));
        if acts[from] == Act::<W>::Wake(group) {
        } else {
            lemma_ready_since_woken(states, acts, from + 1, to, group);
        }
    }
}

/// As [`lemma_wait_ends`], of a task that waits from when it has registered `waker`, where no
/// group was woken.
pub proof fn lemma_announced_wait_ends<W>(
    states: Seq<SharedState<W>>,
    acts: Seq<Act<W>>,
    registers: int,
    wakes: int,
    waker: W,
)
    requires
        history(states, acts),
        0 <= registers < wakes < acts.len(),
        acts[registers] == Act::Announce(waker),
        forall|k: int|
            registers < k < wakes ==> #[trigger] acts[k] is Wake || acts[k] is Read,
        acts[wakes] is Wake,
    ensures
        exists|k: int| registers < k <= wakes && #[trigger] hands_out(states, acts, k, waker),
{
    assert(states[registers].done(acts[registers], states[registers + 1]));
    lemma_wait_ends(states, acts, registers, registers + 1, wakes, waker);
}

/// The words of the set of woken groups, and what the task and the wakers are in the
/// middle of.
pub ghost struct GroupHandshake {
    /// The words, level by level.
    pub tree: Seq<Seq<u64>>,
    /// For each wake-up that is inserting its group, the level and the index there
    /// whose bit it sets next.
    pub inserting: Map<int, (int, int)>,
    /// The wake-ups that have set the first bit of the root and have not looked yet
    /// whether the task may be waiting.
    pub looking: Set<int>,
    /// The words that the task is going to take, as it has taken their bits: each with
    /// its level.
    pub taking: Set<(int, int)>,
    /// Whether the task may be waiting.
    pub parked: bool,
    pub phase: Phase,
    /// Whether the task was woken since it has announced that it may wait.
    pub notified: bool,
}

impl GroupHandshake {
    /// The root word.
    pub open spec fn root(self) -> u64 {
        self.tree.last()[0]
    }

    /// Whether a wake-up has set the first bit of word `word` of `level`, and has not
    /// announced that word in the level above yet.
    pub open spec fn announcing(self, level: int, word: int) -> bool {
        exists|id: int| #[trigger]
            self.inserting.dom().contains(id) && self.inserting[id] == (level + 1, word)
    }

    /// The words that may have a set bit without being announced in the level above.
    pub open spec fn open_words(self) -> Set<(int, int)> {
        Set::new(|p: (int, int)| self.taking.contains(p) || self.announcing(p.0, p.1))
    }

    /// The beginning: no wake-up has begun, and the task does not wait.
    pub open spec fn initial(tree: Seq<Seq<u64>>) -> Self {
        GroupHandshake {
            tree,
            inserting: Map::empty(),
            looking: Set::empty(),
            taking: Set::empty(),
            parked: false,
            phase: Phase::Running,
            notified: false,
        }
    }

    /// What holds before and after every step holds in the beginning.
    pub proof fn lemma_initial(tree: Seq<Seq<u64>>)
        requires
            ready_set::shaped(tree),
            ready_set::linked(tree),
        ensures
            Self::initial(tree).inv(),
    {
        assert(Self::initial(tree).open_words() =~= Set::empty());
    }

    /// What holds before and after every step.
    pub open spec fn inv(self) -> bool {
        &&& ready_set::shaped(self.tree)
        &&& ready_set::linked_but(self.tree, self.open_words())
        &&& forall|id: int| #[trigger]
            self.inserting.dom().contains(id) ==> {
                &&& 0 <= self.inserting[id].0 < self.tree.len()
                &&& 0 <= self.inserting[id].1 < 64 * self.tree[self.inserting[id].0].len()
            }
        &&& self.phase !is Running && !self.notified ==> self.parked
        &&& self.phase is Waiting ==> self.taking == Set::<(int, int)>::empty()
        &&& self.phase is Waiting && !self.notified && self.root() != 0 ==> exists|id: int|
            self.looking.contains(id)
    }

    /// A wake-up of `group` begins.
    pub open spec fn begin(self, after: Self, id: int, group: int) -> bool {
        &&& !self.inserting.dom().contains(id)
        &&& !self.looking.contains(id)
        &&& 0 <= group < 64 * self.tree[0].len()
        &&& after == (GroupHandshake {
            inserting: self.inserting.insert(id, (0int, group)),
            ..self
        })
    }

    /// A wake-up sets its next bit. It stops if the word had a set bit, and else goes
    /// on to the level above, or is to look whether the task may be waiting.
    pub open spec fn insert(self, after: Self, id: int) -> bool {
        let (level, index) = self.inserting[id];
        let first = self.tree[level][index / 64] == 0;
        let top = level == self.tree.len() - 1;
        &&& self.inserting.dom().contains(id)
        &&& after == (GroupHandshake {
            tree: ready_set::with_bit(self.tree, level, index),
            inserting: if first && !top {
                self.inserting.insert(id, (level + 1, index / 64))
            } else {
                self.inserting.remove(id)
            },
            looking: if first && top {
                self.looking.insert(id)
            } else {
                self.looking
            },
            ..self
        })
    }

    /// A wake-up looks whether the task may be waiting, and wakes it if so.
    pub open spec fn notify(self, after: Self, id: int) -> bool {
        &&& self.looking.contains(id)
        &&& after == (GroupHandshake {
            looking: self.looking.remove(id),
            parked: false,
            notified: self.notified || self.parked,
            ..self
        })
    }

    /// The words of the level below that the bits of word `word` of `level` stand for.
    pub open spec fn children(self, level: int, word: int) -> Set<(int, int)> {
        ready_set::children(self.tree, level, word)
    }

    /// The task begins to take all groups: it takes the root.
    pub open spec fn take_root(self, after: Self) -> bool {
        let level = self.tree.len() - 1;
        &&& self.phase !is Waiting
        &&& self.taking == Set::<(int, int)>::empty()
        &&& after == (GroupHandshake {
            tree: ready_set::without_word(self.tree, level, 0),
            taking: self.children(level, 0),
            ..self
        })
    }

    /// The task takes a word whose bit it has taken.
    pub open spec fn take(self, after: Self, level: int, word: int) -> bool {
        &&& self.phase !is Waiting
        &&& self.taking.contains((level, word))
        &&& 0 <= level < self.tree.len()
        &&& 0 <= word < self.tree[level].len()
        &&& after == (GroupHandshake {
            tree: ready_set::without_word(self.tree, level, word),
            taking: self.taking.remove((level, word)).union(self.children(level, word)),
            ..self
        })
    }

    /// The task announces that it may wait.
    pub open spec fn announce(self, after: Self) -> bool {
        &&& self.phase is Running
        &&& after == (GroupHandshake {
            parked: true,
            phase: Phase::Announced,
            notified: false,
            ..self
        })
    }

    /// The task, which is not taking groups, looks at the root once more. It waits if
    /// the root is zero.
    pub open spec fn look(self, after: Self) -> bool {
        &&& self.phase is Announced
        &&& self.taking == Set::<(int, int)>::empty()
        &&& after == (GroupHandshake {
            phase: if self.root() == 0 {
                Phase::Waiting
            } else {
                Phase::Announced
            },
            ..self
        })
    }

    /// The task is polled again.
    pub open spec fn resume(self, after: Self) -> bool {
        after == (GroupHandshake { phase: Phase::Running, ..self })
    }

    /// Any one of the steps.
    pub open spec fn step(self, after: Self) -> bool {
        ||| exists|id: int, group: int| self.begin(after, id, group)
        ||| exists|id: int| self.insert(after, id)
        ||| exists|id: int| self.notify(after, id)
        ||| self.take_root(after)
        ||| exists|level: int, word: int| self.take(after, level, word)
        ||| self.announce(after)
        ||| self.look(after)
        ||| self.resume(after)
    }

    proof fn lemma_begin(self, after: Self, id: int, group: int)
        requires
            self.inv(),
            self.begin(after, id, group),
        ensures
            after.inv(),
    {
        assert forall|level: int, word: int| #[trigger] self.announcing(level, word) implies
            after.announcing(level, word) by {
            let other = choose|other: int| #[trigger]
                self.inserting.dom().contains(other) && self.inserting[other] == (level + 1, word);
            assert(after.inserting.dom().contains(other));
        }
        assert forall|p: (int, int)| self.open_words().contains(p) implies
            #[trigger] after.open_words().contains(p) by {
            assert(self.taking.contains(p) || self.announcing(p.0, p.1));
        }
        if self.phase is Waiting && !self.notified && self.root() != 0 {
            let other = choose|other: int| self.looking.contains(other);
            assert(after.looking.contains(other));
        }
    }

    proof fn lemma_insert(self, after: Self, id: int)
        requires
            self.inv(),
            self.insert(after, id),
        ensures
            after.inv(),
    {
        let (level, index) = self.inserting[id];
        ready_set::lemma_insert_step(self.tree, self.open_words(), level, index);
        assert forall|l: int, w: int|
            #[trigger] self.announcing(l, w) && (l, w) != (level - 1, index) implies
            after.announcing(l, w) by {
            let other = choose|other: int| #[trigger]
                self.inserting.dom().contains(other) && self.inserting[other] == (l + 1, w);
            assert(after.inserting.dom().contains(other));
        }
        if level < self.tree.len() - 1 {
            assert(ready_set::covered(self.tree, level));
            if self.tree[level][index / 64] == 0 {
                assert(after.inserting.dom().contains(id));
                assert(after.announcing(level, index / 64));
            }
        }
        if after.looking != self.looking {
            assert(after.looking.contains(id));
        }
    }

    proof fn lemma_take(self, after: Self, level: int, word: int)
        requires
            self.inv(),
            self.take(after, level, word) || (self.take_root(after) && level == self.tree.len() - 1
                && word == 0),
        ensures
            after.inv(),
    {
        ready_set::lemma_take_step(self.tree, self.open_words(), level, word);
        assert forall|l: int, w: int| #[trigger] self.announcing(l, w) implies after.announcing(
            l,
            w,
        ) by {
            let other = choose|other: int| #[trigger]
                self.inserting.dom().contains(other) && self.inserting[other] == (l + 1, w);
            assert(after.inserting.dom().contains(other));
        }
    }

    /// Every step keeps what holds before it.
    pub proof fn lemma_step(self, after: Self)
        requires
            self.inv(),
            self.step(after),
        ensures
            after.inv(),
    {
        if exists|id: int, group: int| self.begin(after, id, group) {
            let (id, group) = choose|id: int, group: int| self.begin(after, id, group);
            self.lemma_begin(after, id, group);
        } else if exists|id: int| self.insert(after, id) {
            let id = choose|id: int| self.insert(after, id);
            self.lemma_insert(after, id);
        } else if self.take_root(after) {
            self.lemma_take(after, self.tree.len() - 1, 0);
        } else if exists|level: int, word: int| self.take(after, level, word) {
            let (level, word) = choose|level: int, word: int| self.take(after, level, word);
            self.lemma_take(after, level, word);
        } else {
            assert(after.inserting == self.inserting && after.taking == self.taking);
            assert forall|p: (int, int)| self.open_words().contains(p) implies
                #[trigger] after.open_words().contains(p) by {}
        }
    }

    /// Whether each of the states is one step after the one before.
    pub open spec fn steps(path: Seq<Self>) -> bool {
        &&& path.len() > 0
        &&& forall|j: int, k: int|
            0 <= j && k == j + 1 && k < path.len() ==> (#[trigger] path[j]).step(#[trigger] path[k])
    }

    /// Waking a group is a number of the steps: they put it into the set, and if they set the
    /// first bit of the root, they wake the task if it may be waiting. Returns the states
    /// that they lead to.
    pub proof fn lemma_wake_is_steps(self, id: int, group: int) -> (path: Seq<Self>)
        requires
            self.inv(),
            !self.inserting.dom().contains(id),
            !self.looking.contains(id),
            0 <= group < 64 * self.tree[0].len(),
        ensures
            Self::steps(path),
            path.first() == self,
            path.last().inserting == self.inserting,
            path.last().looking == self.looking,
            path.last().taking == self.taking,
            path.last().phase == self.phase,
            ready_set::members(path.last().tree) == ready_set::members(self.tree).update(
                group,
                true,
            ),
            self.root() == 0 && path.last().root() != 0 ==> path.last().notified == (
            self.notified || self.parked),
    {
        let after = GroupHandshake {
            inserting: self.inserting.insert(id, (0int, group)),
            ..self
        };
        assert(self.begin(after, id, group));
        self.lemma_step(after);
        let rest = after.lemma_insert_is_steps(id);
        let path = seq![self] + rest;
        assert forall|j: int, k: int|
            0 <= j && k == j + 1 && k < path.len() implies (#[trigger] path[j]).step(
            #[trigger] path[k],
        ) by {
            if j > 0 {
                assert(rest[j - 1].step(rest[k - 1]));
            }
        }
        assert(path.last() == rest.last());
        assert(path.last().inserting =~= self.inserting);
        path
    }

    /// The steps of a wake-up that is inserting its group.
    proof fn lemma_insert_is_steps(self, id: int) -> (path: Seq<Self>)
        requires
            self.inv(),
            self.inserting.dom().contains(id),
            !self.looking.contains(id),
        ensures
            Self::steps(path),
            path.first() == self,
            path.last().inserting == self.inserting.remove(id),
            path.last().looking == self.looking,
            path.last().taking == self.taking,
            path.last().phase == self.phase,
            ready_set::members(path.last().tree) == (if self.inserting[id].0 == 0 {
                ready_set::members(self.tree).update(self.inserting[id].1, true)
            } else {
                ready_set::members(self.tree)
            }),
            self.root() == 0 && path.last().root() != 0 ==> path.last().notified == (
            self.notified || self.parked),
        decreases self.tree.len() - self.inserting[id].0,
    {
        let (level, index) = self.inserting[id];
        let first = self.tree[level][index / 64] == 0;
        let top = level == self.tree.len() - 1;
        let after = GroupHandshake {
            tree: ready_set::with_bit(self.tree, level, index),
            inserting: if first && !top {
                self.inserting.insert(id, (level + 1, index / 64))
            } else {
                self.inserting.remove(id)
            },
            looking: if first && top {
                self.looking.insert(id)
            } else {
                self.looking
            },
            ..self
        };
        assert(self.insert(after, id));
        self.lemma_step(after);
        ready_set::lemma_members_with_bit(self.tree, level, index);
        if first && !top {
            let rest = after.lemma_insert_is_steps(id);
            let path = seq![self] + rest;
            assert forall|j: int, k: int|
                0 <= j && k == j + 1 && k < path.len() implies (#[trigger] path[j]).step(
                #[trigger] path[k],
            ) by {
                if j > 0 {
                    assert(rest[j - 1].step(rest[k - 1]));
                }
            }
            assert(path.last() == rest.last());
            assert(path.last().inserting =~= self.inserting.remove(id));
            path
        } else if first {
            let done = GroupHandshake {
                looking: after.looking.remove(id),
                parked: false,
                notified: after.notified || after.parked,
                ..after
            };
            assert(after.notify(done, id));
            assert(done.looking =~= self.looking);
            seq![self, after, done]
        } else {
            seq![self, after]
        }
    }

    /// No wake-up is missed: if the task waits, a group is in the set and every
    /// wake-up that has begun is finished, then the task was woken.
    pub proof fn lemma_no_missed_wake_up(self, group: int)
        requires
            self.inv(),
            self.phase is Waiting,
            0 <= group < 64 * self.tree[0].len(),
            ready_set::members(self.tree)[group],
            forall|id: int| !#[trigger] self.inserting.dom().contains(id),
            forall|id: int| !#[trigger] self.looking.contains(id),
        ensures
            self.notified,
    {
        assert(self.open_words() =~= Set::empty());
        ready_set::lemma_reached(self.tree, group);
    }
}

} // verus!
