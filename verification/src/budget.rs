//! When a combinator that polls many futures yields to the executor.
use vstd::prelude::*;

verus! {

/// What one call of `poll` may still do before it yields.
pub struct Budget {
    limit: usize,
    polled: usize,
    yielded: usize,
}

impl Budget {
    /// After how many polls to yield.
    pub closed spec fn limit(&self) -> nat {
        self.limit as nat
    }

    /// The number of polls made.
    pub closed spec fn polled(&self) -> nat {
        self.polled as nat
    }

    /// The number of polls during which the polled future was woken.
    pub closed spec fn yielded(&self) -> nat {
        self.yielded as nat
    }

    /// Whether it is time to yield: after `limit` polls, to avoid starving other
    /// tasks, or after two futures woke themselves, which is taken to mean that
    /// they wanted to yield.
    pub open spec fn spent(&self) -> bool {
        self.polled() >= self.limit() || self.yielded() >= 2
    }

    /// The budget of a call of `poll` that makes at most `limit` polls.
    pub fn new(limit: usize) -> (budget: Self)
        ensures
            budget.limit() == limit,
            budget.polled() == 0,
            budget.yielded() == 0,
    {
        Budget { limit, polled: 0, yielded: 0 }
    }

    /// Records a poll and whether the polled future was woken meanwhile. Tells
    /// whether to yield.
    pub fn spend(&mut self, woken: bool) -> (spent: bool)
        requires
            !old(self).spent(),
        ensures
            final(self).limit() == old(self).limit(),
            final(self).polled() == old(self).polled() + 1,
            final(self).yielded() == old(self).yielded() + (if woken {
                1nat
            } else {
                0nat
            }),
            spent == final(self).spent(),
    {
        self.polled = self.polled + 1;
        if woken {
            self.yielded = self.yielded + 1;
        }
        self.polled == self.limit || self.yielded >= 2
    }
}

} // verus!
