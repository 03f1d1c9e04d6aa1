//! Sleep sets over the canonical thread order.
//!
//! A thread goes to sleep at a schedule branch when a sibling alternative
//! there already covers the executions that differ only by running this
//! thread earlier: every behavior reachable by scheduling it now is reachable
//! in that sibling's subtree by commuting its next operation forward across
//! the independent operations in between. It wakes the moment a conflicting
//! operation executes: past that point the commutation argument no longer
//! holds. Scheduling a still-sleeping thread therefore proves the whole
//! remainder redundant, and the execution finishes as a non-exploring scout
//! (`Path::skip_branch`), closing the subtree.
//!
//! Which siblings count as covering is one rule: the *open* alternatives
//! canonically below the chosen one. Open bits are monotone and every open
//! alternative is eventually fully explored, so deferring along the fixed
//! thread order is well-founded, whichever workers run the subtrees.
//!
//! Never engaged under a preemption bound: the commutation inserts a context
//! switch and a switch-back, so the covering linearization can cost up to two
//! preemptions more than the execution it covers, and be truncated by the very
//! bound the pruned execution satisfied.
use vstd::prelude::*;

use crate::rt::bits;

verus! {

/// Threads whose next operation is covered by a sibling subtree.
///
/// One word of per-execution state, recomputed from scratch on every replay.
#[derive(Debug, Clone, Copy)]
pub struct SleepSet {
    /// Bit per thread index.
    pub asleep: u16,
}

impl Default for SleepSet {
    fn default() -> (r: SleepSet)
        ensures
            r.asleep == 0,
    {
        SleepSet { asleep: 0 }
    }
}

impl SleepSet {
    /// Thread `t` is asleep.
    pub open spec fn sleeps(self, t: int) -> bool {
        bits::holds(self.asleep, t)
    }

    pub fn clear(&mut self)
        ensures
            final(self).asleep == 0,
    {
        self.asleep = 0;
    }

    pub fn is_empty(&self) -> (r: bool)
        ensures
            r <==> forall|t: int| 0 <= t < 16 ==> !#[trigger] self.sleeps(t),
    {
        proof {
            bits::lemma_empty(self.asleep);
            if self.asleep != 0 {
                let t = choose|t: int| 0 <= t < 16 && #[trigger] bits::holds(self.asleep, t);
                assert(self.sleeps(t));
            }
        }
        self.asleep == 0
    }

    pub fn contains(&self, id: usize) -> (r: bool)
        requires
            id < 16,
        ensures
            r == self.sleeps(id as int),
    {
        bits::test(self.asleep, id)
    }

    /// Put the covered siblings of a just-passed branch to sleep.
    pub fn cover(&mut self, covered: u16)
        ensures
            final(self).asleep == old(self).asleep | covered,
            forall|t: int|
                0 <= t < 16 ==> #[trigger] final(self).sleeps(t) == (old(self).sleeps(t)
                    || bits::holds(covered, t)),
    {
        broadcast use bits::group_bits;

        self.asleep = self.asleep | covered;
    }

    /// Wake these threads: a conflicting operation has executed, so their
    /// covered-elsewhere justification is spent.
    pub fn wake(&mut self, woken: u16)
        ensures
            final(self).asleep == old(self).asleep & !woken,
            forall|t: int|
                0 <= t < 16 ==> #[trigger] final(self).sleeps(t) == (old(self).sleeps(t)
                    && !bits::holds(woken, t)),
    {
        broadcast use bits::group_bits;

        self.asleep = self.asleep & !woken;
    }

    /// Drop the whole set, for the transitions the commutation argument says
    /// nothing about: time firing a timed wait instead of an operation.
    pub fn wake_all(&mut self)
        ensures
            final(self).asleep == 0,
    {
        self.asleep = 0;
    }
}

} // verus!
