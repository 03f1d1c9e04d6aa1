//! The process-wide budget of extra exploration workers.
use vstd::prelude::*;

verus! {

/// Workers that no run holds.
///
/// Every run owns one worker outright and draws the rest from here, returning
/// them when it finishes. A run with the machine to itself takes all of it;
/// concurrent ones share.
pub struct Budget {
    free: usize,
}

impl View for Budget {
    type V = int;

    closed spec fn view(&self) -> int {
        self.free as int
    }
}

/// Extra workers claimed for one run, to be handed back at its end.
#[derive(Debug)]
pub struct Grant {
    extra: usize,
}

impl View for Grant {
    type V = int;

    closed spec fn view(&self) -> int {
        self.extra as int
    }
}

/// The smaller of two numbers.
pub open spec fn least(a: int, b: int) -> int {
    if a <= b {
        a
    } else {
        b
    }
}

impl Budget {
    /// The budget of a machine with `cpus` processors: one is every run's own.
    pub fn new(cpus: usize) -> (r: Budget)
        ensures
            r@ == if cpus == 0 {
                0int
            } else {
                cpus - 1
            },
    {
        Budget { free: cpus.saturating_sub(1) }
    }

    /// Claim up to `want` extra workers, taking whatever is free right now.
    pub fn claim(&mut self, want: usize) -> (r: Grant)
        ensures
            r@ == least(want as int, old(self)@),
            final(self)@ == old(self)@ - r@,
            0 <= final(self)@,
    {
        let extra: usize = if want <= self.free {
            want
        } else {
            self.free
        };
        self.free = self.free - extra;
        Grant { extra }
    }

    /// Return the workers of a run that is over.
    pub fn release(&mut self, grant: Grant)
        requires
            old(self)@ + grant@ <= usize::MAX,
        ensures
            final(self)@ == old(self)@ + grant@,
    {
        self.free = self.free + grant.extra;
    }
}

impl Grant {
    /// A run that draws nothing.
    pub fn none() -> (r: Grant)
        ensures
            r@ == 0,
    {
        Grant { extra: 0 }
    }

    pub fn extra(&self) -> (r: usize)
        ensures
            r == self@,
    {
        self.extra
    }
}

/// A claim takes no more than was asked for or free, the claims of several
/// runs together take no more than there was, and what was claimed comes back
/// in full, in whatever order.
pub proof fn grants_share_the_budget(free: int, first: int, second: int)
    requires
        0 <= free,
        0 <= first,
        0 <= second,
    ensures
        ({
            let a = least(first, free);
            let b = least(second, free - a);
            &&& 0 <= a <= first
            &&& 0 <= b <= second
            &&& a + b <= free
            &&& (a + b == free || (a == first && b == second))
            &&& free - a - b + a + b == free
        }),
{
}

} // verus!
