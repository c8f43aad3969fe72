//! The connections that all downloads share.

use crate::engine::config::EngineConfig;
use vstd::prelude::*;

verus! {

/// What a budget holds.
pub struct BudgetView {
    pub limit: usize,
    pub used: usize,
}

/// A limited number of connections, across all downloads.
#[derive(Debug)]
pub struct ConnectionBudget {
    limit: usize,
    used: usize,
}

impl View for ConnectionBudget {
    type V = BudgetView;

    closed spec fn view(&self) -> BudgetView {
        BudgetView { limit: self.limit, used: self.used }
    }
}

impl ConnectionBudget {
    /// No more connections are open than may be.
    pub open spec fn wf(self) -> bool {
        self@.used <= self@.limit
    }

    pub fn new(limit: usize) -> (budget: Self)
        ensures
            budget.wf(),
            budget@ == (BudgetView { limit, used: 0 }),
    {
        ConnectionBudget { limit, used: 0 }
    }

    /// The connections that the configuration allows.
    pub fn for_engine(config: &EngineConfig) -> (budget: Self)
        ensures
            budget.wf(),
            budget@ == (BudgetView { limit: config.max_total_connections, used: 0 }),
    {
        ConnectionBudget::new(config.max_total_connections)
    }

    /// Open a connection if there is one left. Returns whether there was.
    pub fn try_acquire(&mut self) -> (acquired: bool)
        requires
            old(self).wf(),
        ensures
            final(self).wf(),
            acquired == (old(self)@.used < old(self)@.limit),
            final(self)@ == (BudgetView {
                used: if acquired {
                    (old(self)@.used + 1) as usize
                } else {
                    old(self)@.used
                },
                ..old(self)@
            }),
    {
        if self.used < self.limit {
            self.used = self.used + 1;
            true
        } else {
            false
        }
    }

    /// Close a connection; nothing changes where none is open.
    pub fn release(&mut self)
        requires
            old(self).wf(),
        ensures
            final(self).wf(),
            final(self)@ == (BudgetView {
                used: if old(self)@.used > 0 {
                    (old(self)@.used - 1) as usize
                } else {
                    0
                },
                ..old(self)@
            }),
    {
        if self.used > 0 {
            self.used = self.used - 1;
        }
    }

    /// The connections that are open.
    pub fn used(&self) -> (n: usize)
        ensures
            n == self@.used,
    {
        self.used
    }
}

} // verus!
