//! Which thread runs next, as far as the threads themselves decide it.
use vstd::prelude::*;

use crate::rt::bits;
use crate::rt::branch;
use crate::rt::object::dependent_operations;
use crate::rt::path::{index_of, seed_wf};
use crate::rt::thread::{Operation, State, Thread, Threads, ThreadsModel};
use crate::rt::MAX_THREADS;

verus! {

impl ThreadsModel {
    /// Some thread can run, or has only yielded.
    pub open spec fn can_run(self) -> bool {
        exists|i: int|
            0 <= i < self.threads.len() && ((#[trigger] self.threads[i]).runnable()
                || self.threads[i].state is Yield)
    }

    /// No thread can run, and some thread waits with a timeout.
    pub open spec fn timeouts_fire(self) -> bool {
        !self.can_run() && exists|i: int|
            0 <= i < self.threads.len() && (#[trigger] self.threads[i]).blocked_timed()
    }

    /// The threads with every pending timeout fired where nothing else can
    /// run: a thread blocked in a timed wait can always end its block on its
    /// own, so time is the only mover left.
    pub open spec fn rescued(self) -> ThreadsModel {
        if self.can_run() {
            self
        } else {
            ThreadsModel {
                threads: self.threads.map_values(
                    |th: Thread|
                        if th.blocked_timed() {
                            Thread { state: State::Runnable { unparked: false }, ..th }
                        } else {
                            th
                        },
                ),
                ..self
            }
        }
    }

    /// The runnable one among the first `n` threads that yielded least, and
    /// the first of those.
    pub open spec fn least_yielded(self, n: int) -> Option<int>
        decreases n,
    {
        if n <= 0 {
            None
        } else {
            let before = self.least_yielded(n - 1);
            let th = self.threads[n - 1];
            if !th.runnable() {
                before
            } else {
                match before {
                    Some(j) if th.yield_count >= self.threads[j].yield_count => before,
                    _ => Some(n - 1),
                }
            }
        }
    }

    /// The thread that runs unless the search decides otherwise: the active
    /// one, to avoid pre-emption as much as possible, or else the runnable one
    /// that yielded least.
    pub open spec fn initial(self) -> Option<int> {
        if self.current().runnable() {
            Some(self.me())
        } else {
            self.least_yielded(self.threads.len() as int)
        }
    }

    /// What the search is told of the threads.
    pub open spec fn seed(self) -> Seq<branch::Thread> {
        Seq::new(
            self.threads.len(),
            |i: int|
                if self.initial() == Some(i) {
                    branch::Thread::Active
                } else if self.threads[i].state is Yield {
                    branch::Thread::Yield
                } else if !self.threads[i].runnable() {
                    branch::Thread::Disabled
                } else {
                    branch::Thread::Skip
                },
        )
    }

    /// Every thread has terminated.
    pub open spec fn all_done(self) -> bool {
        forall|i: int|
            0 <= i < self.threads.len() ==> (#[trigger] self.threads[i]).state is Terminated
    }

    /// The threads with the yielded ones runnable again, except `next`.
    pub open spec fn reactivated(self, next: int) -> ThreadsModel {
        ThreadsModel {
            threads: self.threads.map(
                |i: int, th: Thread|
                    if th.state is Yield && i != next {
                        Thread { state: State::Runnable { unparked: false }, ..th }
                    } else {
                        th
                    },
            ),
            ..self
        }
    }

    /// Thread `i` does not sleep past the operation of thread `next`: it is
    /// the one that runs, or its own next operation is not known, or depends
    /// on that one.
    pub open spec fn wakes(self, next: int, i: int) -> bool {
        i == next || (self.threads[next].operation matches Some(op) && match self.threads[i].operation {
            None => true,
            Some(other) => dependent_operations(op, other),
        })
    }

    /// The first `n` threads that do not sleep past the operation of `next`.
    pub open spec fn wake_set(self, next: int, n: int) -> u16
        decreases n,
    {
        if n <= 0 {
            0
        } else if self.wakes(next, n - 1) {
            self.wake_set(next, n - 1) | bits::only(n - 1)
        } else {
            self.wake_set(next, n - 1)
        }
    }
}

/// The least yielded thread is a runnable one, if there is any.
pub proof fn lemma_least_yielded(t: ThreadsModel, n: int)
    requires
        0 <= n <= t.threads.len(),
    ensures
        match t.least_yielded(n) {
            Some(j) => 0 <= j < n && t.threads[j].runnable(),
            None => forall|i: int| 0 <= i < n ==> !(#[trigger] t.threads[i]).runnable(),
        },
    decreases n,
{
    if n > 0 {
        lemma_least_yielded(t, n - 1);
    }
}

/// What the search is told is a valid seed.
pub proof fn lemma_seed(t: ThreadsModel)
    requires
        t.running(),
    ensures
        seed_wf(t.seed()),
{
    lemma_least_yielded(t, t.threads.len() as int);
}

impl Threads {
    fn any_can_run(&self) -> (r: bool)
        ensures
            r == self@.can_run(),
    {
        let mut i: usize = 0;
        while i < self.len()
            invariant
                i <= self@.threads.len(),
                forall|k: int|
                    0 <= k < i ==> !((#[trigger] self@.threads[k]).runnable()
                        || self@.threads[k].state is Yield),
            decreases self@.threads.len() - i,
        {
            let th: Thread = self.get(i);
            if th.is_runnable() || th.is_yield() {
                assert(self@.threads[i as int].runnable() || self@.threads[i as int].state is Yield);
                return true;
            }
            i += 1;
        }
        false
    }

    /// If no thread can run, fire every pending timeout instead of reporting a
    /// deadlock the clock would have resolved. Reports whether one fired.
    pub fn rescue(&mut self) -> (r: bool)
        requires
            old(self)@.running(),
        ensures
            final(self)@ == old(self)@.rescued(),
            final(self)@.running(),
            r == old(self)@.timeouts_fire(),
    {
        if self.any_can_run() {
            return false;
        }
        let mut fired: bool = false;
        let mut i: usize = 0;
        while i < self.len()
            invariant
                !old(self)@.can_run(),
                i <= self@.threads.len() == old(self)@.threads.len(),
                self@ == (ThreadsModel { threads: self@.threads, ..old(self)@ }),
                forall|k: int|
                    0 <= k < i ==> #[trigger] self@.threads[k] == old(self)@.rescued().threads[k],
                forall|k: int|
                    i <= k < self@.threads.len() ==> #[trigger] self@.threads[k] == old(
                        self,
                    )@.threads[k],
                fired ==> old(self)@.timeouts_fire(),
                !fired ==> forall|k: int|
                    0 <= k < i ==> !(#[trigger] old(self)@.threads[k]).blocked_timed(),
            decreases self@.threads.len() - i,
        {
            let mut th: Thread = self.get(i);
            assert(th == old(self)@.threads[i as int]);
            if th.is_blocked_timed() {
                th.state = State::Runnable { unparked: false };
                self.set(i, th);
                fired = true;
            }
            i += 1;
        }
        assert(self@.threads =~= old(self)@.rescued().threads);
        fired
    }

    /// The thread that runs unless the search decides otherwise.
    fn pick_initial(&self) -> (r: Option<usize>)
        requires
            self@.running(),
        ensures
            index_of(r) == self@.initial(),
    {
        if self.current().is_runnable() {
            return Some(self.active_id());
        }
        let mut initial: Option<usize> = None;
        let mut i: usize = 0;
        while i < self.len()
            invariant
                i <= self@.threads.len() <= MAX_THREADS,
                index_of(initial) == self@.least_yielded(i as int),
                initial matches Some(j) ==> j < i,
            decreases self@.threads.len() - i,
        {
            let th: Thread = self.get(i);
            if th.is_runnable() {
                match initial {
                    Some(j) => {
                        if th.yield_count < self.get(j).yield_count {
                            initial = Some(i);
                        }
                    },
                    None => {
                        initial = Some(i);
                    },
                }
            }
            i += 1;
        }
        initial
    }

    /// What the search is told of the threads.
    pub fn make_seed(&self) -> (r: Vec<branch::Thread>)
        requires
            self@.running(),
        ensures
            r@ == self@.seed(),
            seed_wf(r@),
    {
        let initial: Option<usize> = self.pick_initial();
        let mut out: Vec<branch::Thread> = Vec::new();
        let mut i: usize = 0;
        while i < self.len()
            invariant
                index_of(initial) == self@.initial(),
                i <= self@.threads.len(),
                out@ == self@.seed().take(i as int),
            decreases self@.threads.len() - i,
        {
            let th: Thread = self.get(i);
            let chosen: bool = match initial {
                Some(j) => j == i,
                None => false,
            };
            let state: branch::Thread = if chosen {
                branch::Thread::Active
            } else if th.is_yield() {
                branch::Thread::Yield
            } else if !th.is_runnable() {
                branch::Thread::Disabled
            } else {
                branch::Thread::Skip
            };
            out.push(state);
            i += 1;
            assert(out@ =~= self@.seed().take(i as int));
        }
        proof {
            lemma_seed(self@);
            assert(out@ =~= self@.seed());
        }
        out
    }

    pub fn is_all_done(&self) -> (r: bool)
        ensures
            r == self@.all_done(),
    {
        let mut i: usize = 0;
        while i < self.len()
            invariant
                i <= self@.threads.len(),
                forall|k: int| 0 <= k < i ==> (#[trigger] self@.threads[k]).state is Terminated,
            decreases self@.threads.len() - i,
        {
            if !self.get(i).is_terminated() {
                assert(!(self@.threads[i as int].state is Terminated));
                return false;
            }
            i += 1;
        }
        true
    }

    /// Reactivate yielded threads, but not the one that runs next.
    pub fn reactivate(&mut self, next: usize)
        requires
            old(self)@.wf(),
        ensures
            final(self)@ == old(self)@.reactivated(next as int),
            final(self)@.wf(),
    {
        let mut i: usize = 0;
        while i < self.len()
            invariant
                i <= self@.threads.len() == old(self)@.threads.len(),
                self@ == (ThreadsModel { threads: self@.threads, ..old(self)@ }),
                forall|k: int|
                    0 <= k < i ==> #[trigger] self@.threads[k] == old(self)@.reactivated(
                        next as int,
                    ).threads[k],
                forall|k: int|
                    i <= k < self@.threads.len() ==> #[trigger] self@.threads[k] == old(
                        self,
                    )@.threads[k],
            decreases self@.threads.len() - i,
        {
            let mut th: Thread = self.get(i);
            assert(th == old(self)@.threads[i as int]);
            if th.is_yield() && i != next {
                th.state = State::Runnable { unparked: false };
                self.set(i, th);
            }
            i += 1;
        }
        assert(self@.threads =~= old(self)@.reactivated(next as int).threads);
    }

    /// The threads that do not sleep past the operation of thread `next`.
    pub fn woken_by(&self, next: usize) -> (r: u16)
        requires
            self@.wf(),
            next < self@.threads.len(),
        ensures
            r == self@.wake_set(next as int, self@.threads.len() as int),
    {
        let operation: Option<Operation> = self.get(next).operation;
        let mut out: u16 = 0;
        let mut i: usize = 0;
        while i < self.len()
            invariant
                next < self@.threads.len() <= MAX_THREADS,
                operation == self@.threads[next as int].operation,
                i <= self@.threads.len(),
                out == self@.wake_set(next as int, i as int),
            decreases self@.threads.len() - i,
        {
            let th: Thread = self.get(i);
            let wakes: bool = i == next || match operation {
                Some(op) => match th.operation {
                    None => true,
                    Some(other) => op.object == other.object && op.action.conflicts_with(
                        other.action,
                    ),
                },
                None => false,
            };
            if wakes {
                out = out | bits::bit(i);
            }
            i += 1;
        }
        out
    }
}

} // verus!
