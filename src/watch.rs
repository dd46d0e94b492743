//! Deciding, cycle after cycle, whether the number of sessions has grown.
use vstd::prelude::*;

verus! {

/// The count that later cycles are compared with. Zero means that no
/// cycle has counted any session yet.
#[derive(Debug, Clone, Copy, PartialEq, Eq, Structural)]
pub struct SessionWatch {
    pub baseline: usize,
}

/// A cycle signals new sessions when a baseline is set and the count
/// exceeds it.
pub open spec fn signals(baseline: nat, count: nat) -> bool {
    baseline != 0 && count > baseline
}

/// The first nonzero count becomes the baseline and then stays.
pub open spec fn next_baseline(baseline: nat, count: nat) -> nat {
    if baseline == 0 {
        count
    } else {
        baseline
    }
}

impl SessionWatch {
    /// A watch that has counted nothing yet.
    pub fn new() -> (r: SessionWatch)
        ensures
            r.baseline == 0,
    {
        SessionWatch { baseline: 0 }
    }

    /// Takes one cycle's count: returns whether it signals new sessions, and
    /// sets the baseline from it if none was set.
    pub fn observe(&mut self, count: usize) -> (signal: bool)
        ensures
            signal == signals(old(self).baseline as nat, count as nat),
            final(self).baseline == next_baseline(old(self).baseline as nat, count as nat),
    {
        if self.baseline == 0 {
            self.baseline = count;
            false
        } else {
            count > self.baseline
        }
    }
}

} // verus!
