//! The state of a condition variable.
use std::collections::VecDeque;
use vstd::prelude::*;

use crate::rt::access::Access;

verus! {

/// A condition variable.
pub struct Condvar {
    /// Tracks access to the condition variable
    pub last_access: Option<Access>,
    /// True if a wait on the condvar already woke on its own (spuriously /
    /// by its timeout) this execution
    pub did_spur: bool,
    /// Threads waiting on the condvar
    pub waiters: VecDeque<usize>,
}

/// What a condition variable is.
#[verifier::ext_equal]
pub struct CondvarModel {
    pub last_access: Option<Access>,
    pub did_spur: bool,
    pub waiters: Seq<usize>,
}

impl View for Condvar {
    type V = CondvarModel;

    open spec fn view(&self) -> CondvarModel {
        CondvarModel {
            last_access: self.last_access,
            did_spur: self.did_spur,
            waiters: self.waiters@,
        }
    }
}

/// The first place from `i` on at which `thread` waits.
pub open spec fn place_of(waiters: Seq<usize>, thread: usize, i: int) -> Option<int>
    decreases waiters.len() - i,
{
    if i >= waiters.len() {
        None
    } else if waiters[i] == thread {
        Some(i)
    } else {
        place_of(waiters, thread, i + 1)
    }
}

impl CondvarModel {
    /// Nobody waits, and nobody woke on its own.
    pub open spec fn fresh() -> CondvarModel {
        CondvarModel { last_access: None, did_spur: false, waiters: Seq::empty() }
    }

    /// The condition variable with `thread` waiting last.
    pub open spec fn enqueued(self, thread: usize) -> CondvarModel {
        CondvarModel { waiters: self.waiters.push(thread), ..self }
    }

    /// The condition variable after `thread` woke, and whether it was still
    /// waiting: a notification dequeues its target before waking it, so that
    /// any other wake leaves the entry behind.
    pub open spec fn left(self, thread: usize) -> (CondvarModel, bool) {
        match place_of(self.waiters, thread, 0) {
            Some(i) => (CondvarModel { waiters: self.waiters.remove(i), ..self }, true),
            None => (self, false),
        }
    }

    /// The condition variable with its first waiter gone.
    pub open spec fn dequeued(self) -> CondvarModel {
        if self.waiters.len() == 0 {
            self
        } else {
            CondvarModel { waiters: self.waiters.skip(1), ..self }
        }
    }
}

impl Condvar {
    pub fn new() -> (r: Condvar)
        ensures
            r@ == CondvarModel::fresh(),
    {
        Condvar { last_access: None, did_spur: false, waiters: VecDeque::new() }
    }

    /// At most one wait per condition variable wakes on its own in one
    /// execution, which keeps wait loops finite.
    pub fn might_spur(&self) -> (r: bool)
        ensures
            r == !self@.did_spur,
    {
        !self.did_spur
    }

    /// Track a thread as a waiter.
    pub fn enqueue(&mut self, thread: usize)
        ensures
            final(self)@ == old(self)@.enqueued(thread),
    {
        self.waiters.push_back(thread);
    }

    /// Stop waiting, reporting whether no notification had dequeued the thread
    /// yet. Dequeuing makes sure that a later notification is not spent on a
    /// thread that already returned from its wait.
    pub fn leave(&mut self, thread: usize) -> (r: bool)
        ensures
            (final(self)@, r) == old(self)@.left(thread),
    {
        let mut i: usize = 0;
        while i < self.waiters.len()
            invariant
                self@ == old(self)@,
                i <= self@.waiters.len(),
                place_of(self@.waiters, thread, 0) == place_of(self@.waiters, thread, i as int),
            decreases self@.waiters.len() - i,
        {
            if self.waiters[i] == thread {
                self.waiters.remove(i);
                return true;
            }
            i += 1;
        }
        false
    }

    /// Take the first waiter, if any.
    pub fn dequeue(&mut self) -> (r: Option<usize>)
        ensures
            r == (if old(self)@.waiters.len() == 0 {
                None
            } else {
                Some(old(self)@.waiters[0])
            }),
            final(self)@ == old(self)@.dequeued(),
    {
        let r = self.waiters.pop_front();
        assert(self@ =~= old(self)@.dequeued());
        r
    }
}

} // verus!
