//! Waiting for all of a list of futures to finish.
//!
//! [`join_all`](join_all::join_all) waits for futures that cannot fail, and
//! [`try_join_all`](try_join_all::try_join_all) for futures that can. Both poll all
//! of a few futures whenever they are polled. Of many futures, they poll only those
//! that were never polled or that were woken.
//!
//! What the combinators do is stated over [`progress`]: how far each future has
//! come, how often it was polled, and which polls take the futures from one state
//! to the next. Which futures were woken is recorded by [`slots`], one for each
//! future, or by a [`ready_set`] for groups of futures. They stand behind a lock, and what
//! is done to them at once, while it is held, is one of a few acts. [`handshake`] and
//! [`group_handshake`] show that a task that waits does not miss a wake-up, whatever the
//! sequence of the acts is, and that it would not in models in which the acts are made of
//! smaller steps.
//!
//! What a task does to its slots and its futures, and to its groups, is noted one after the
//! other in a [`ledger`] or a [`group_ledger`], and what the combinators promise of it is
//! stated over these notes. [`wake_laws`] show what this comes to together with what the
//! wakers do, which is all in [`waking`].
pub mod budget;
pub mod futures_unordered;
pub mod group_handshake;
pub mod group_ledger;
pub mod handshake;
pub mod join_all;
pub mod ledger;
pub mod maybe_done;
pub mod progress;
pub mod ready_set;
pub mod slot_wakers;
pub mod slots;
pub mod task;
pub mod try_join_all;
pub mod wake_groups;
pub mod wake_laws;
pub mod waking;
