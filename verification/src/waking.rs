//! How the wakers of futures wake.
//!
//! A call of a waker changes what the task and the wakers share only as it notes in its
//! [`Call`]. A call begins here, and where it is handed on another cannot be begun.
use crate::slot_wakers::{slot_woken, SlotWaker};
use crate::slots::SlotState;
use crate::task;
use crate::wake_groups::{group_woken, GroupWaker, SharedState};
use std::sync::Arc;
use std::task::{Wake, Waker};
use vstd::prelude::*;

verus! {

/// What one call of a waker has done to what is shared.
#[verifier::reject_recursive_types(S)]
pub struct Call<S> {
    log: Ghost<Seq<(S, int, S)>>,
}

impl<S> Call<S> {
    /// What was woken, with the state before and the state after, one after the other.
    pub closed spec fn log(&self) -> Seq<(S, int, S)> {
        self.log@
    }

    /// A call that has done nothing.
    fn new() -> (call: Self)
        ensures
            call.log() == Seq::<(S, int, S)>::empty(),
    {
        let ghost log = Seq::<(S, int, S)>::empty();
        Call { log: Ghost(log) }
    }

    /// Notes that waking `woken` has led from the state `before` to the state `after`.
    pub(crate) fn note(
        &mut self,
        Ghost(before): Ghost<S>,
        Ghost(woken): Ghost<int>,
        Ghost(after): Ghost<S>,
    )
        ensures
            final(self).log() == old(self).log().push((before, woken, after)),
    {
        proof {
            self.log = Ghost(self.log@.push((before, woken, after)));
        }
    }
}

impl Wake for SlotWaker {
    fn wake(self: Arc<Self>)
        ensures
            slot_woken(self.lock(), self.slot()),
            task::dropped(self),
    {
        let mut call: Call<SlotState<Waker>> = Call::new();
        self.wake_slot(&mut call);
        task::discard(self);
    }

    fn wake_by_ref(self: &Arc<Self>)
        ensures
            slot_woken(self.lock(), self.slot()),
    {
        let mut call: Call<SlotState<Waker>> = Call::new();
        self.wake_slot(&mut call);
    }
}

impl Wake for GroupWaker {
    fn wake(self: Arc<Self>)
        ensures
            group_woken(self.lock(), self.group()),
            task::dropped(self),
    {
        let mut call: Call<SharedState<Waker>> = Call::new();
        self.wake_group(&mut call);
        task::discard(self);
    }

    fn wake_by_ref(self: &Arc<Self>)
        ensures
            group_woken(self.lock(), self.group()),
    {
        let mut call: Call<SharedState<Waker>> = Call::new();
        self.wake_group(&mut call);
    }
}

} // verus!
