//! Completion of the frame writes: the run is done only when every frame it
//! handed out has been written.

use vstd::prelude::*;

verus! {

/// Counts of the frame writes of a run.
pub struct WriteLedger {
    dispatched: u64,
    written: u64,
    failed: u64,
}

impl WriteLedger {
    /// Writes handed out so far.
    pub closed spec fn dispatched_count(&self) -> nat {
        self.dispatched as nat
    }

    /// Writes confirmed durable so far.
    pub closed spec fn written_count(&self) -> nat {
        self.written as nat
    }

    /// Writes that failed so far.
    pub closed spec fn failed_count(&self) -> nat {
        self.failed as nat
    }

    /// Every write is handed out before it is confirmed or fails.
    pub closed spec fn wf(&self) -> bool {
        self.written + self.failed <= self.dispatched
    }

    /// A ledger with nothing handed out.
    pub fn new() -> (r: WriteLedger)
        ensures
            r.wf(),
            r.dispatched_count() == 0,
            r.written_count() == 0,
            r.failed_count() == 0,
    {
        WriteLedger { dispatched: 0, written: 0, failed: 0 }
    }

    /// Records that one more write was handed out.
    pub fn dispatch(&mut self)
        requires
            old(self).wf(),
            old(self).dispatched_count() < u64::MAX,
        ensures
            final(self).wf(),
            final(self).dispatched_count() == old(self).dispatched_count() + 1,
            final(self).written_count() == old(self).written_count(),
            final(self).failed_count() == old(self).failed_count(),
    {
        self.dispatched = self.dispatched + 1;
    }

    /// Records the outcome of one write that was handed out: `ok` when it is
    /// durable, else a failure, which is never counted as written.
    pub fn settle(&mut self, ok: bool)
        requires
            old(self).wf(),
            old(self).written_count() + old(self).failed_count() < old(self).dispatched_count(),
        ensures
            final(self).wf(),
            final(self).dispatched_count() == old(self).dispatched_count(),
            final(self).written_count() == old(self).written_count() + if ok {
                1int
            } else {
                0int
            },
            final(self).failed_count() == old(self).failed_count() + if ok {
                0int
            } else {
                1int
            },
    {
        if ok {
            self.written = self.written + 1;
        } else {
            self.failed = self.failed + 1;
        }
    }

    /// Whether some write has not settled yet.
    pub fn pending(&self) -> (r: bool)
        requires
            self.wf(),
        ensures
            r == (self.written_count() + self.failed_count() < self.dispatched_count()),
    {
        self.written + self.failed < self.dispatched
    }

    /// Whether the run is complete: every write handed out is durable.
    pub fn all_durable(&self) -> (r: bool)
        requires
            self.wf(),
        ensures
            r == (self.written_count() == self.dispatched_count() && self.failed_count() == 0),
    {
        self.written == self.dispatched && self.failed == 0
    }

    /// Whether some write failed.
    pub fn any_failed(&self) -> (r: bool)
        ensures
            r == (self.failed_count() > 0),
    {
        self.failed > 0
    }
}

} // verus!
