//! Threads that wait, wake, yield and end.
use vstd::prelude::*;

use crate::rt::claims::{claims_evolve, claims_wf, Claims, Frozen};
use crate::rt::execution::{ExecModel, Execution};
use crate::rt::fault::Fault;
use crate::rt::thread::{State, Thread, Threads, ThreadsModel};

verus! {

impl Thread {
    /// The thread woken by an unpark. A runnable thread keeps the unpark for
    /// its next park.
    pub open spec fn unparked(self) -> Thread {
        match self.state {
            State::Blocked { .. } | State::Yield => Thread {
                state: State::Runnable { unparked: false },
                ..self
            },
            State::Runnable { .. } => Thread { state: State::Runnable { unparked: true }, ..self },
            State::Terminated => self,
        }
    }

    /// The thread after it yielded at version `v`.
    pub open spec fn yielded(self, v: u16) -> Thread {
        Thread {
            state: State::Yield,
            operation: None,
            last_yield: Some(v),
            yield_count: if self.yield_count < usize::MAX {
                (self.yield_count + 1) as usize
            } else {
                self.yield_count
            },
            ..self
        }
    }
}

impl ThreadsModel {
    /// The threads after the active one unparked thread `id`: the woken thread
    /// has seen what the active one has.
    pub open spec fn unparked(self, id: int) -> ThreadsModel {
        if id == self.me() {
            self.with_current(self.current().unparked())
        } else {
            let th = self.threads[id];
            ThreadsModel {
                threads: self.threads.update(
                    id,
                    Thread {
                        causality: th.causality.joined(self.current().causality),
                        ..th
                    }.unparked(),
                ),
                ..self
            }
        }
    }
}

impl ExecModel {
    /// The active thread has an unpark that its next park consumes.
    pub open spec fn has_unpark(self) -> bool {
        self.threads.current().state == State::Runnable { unparked: true }
    }

    /// The execution with the unpark of the active thread consumed.
    pub open spec fn unpark_consumed(self) -> ExecModel {
        ExecModel {
            threads: self.threads.with_current(
                Thread { state: State::Runnable { unparked: false }, ..self.threads.current() },
            ),
            ..self
        }
    }

    /// The execution with the active thread blocked.
    pub open spec fn blocked(self, timed: bool) -> ExecModel {
        ExecModel {
            threads: self.threads.with_current(
                Thread {
                    state: State::Blocked { timed },
                    operation: None,
                    ..self.threads.current()
                },
            ),
            ..self
        }
    }

    /// The execution with the active thread yielding.
    pub open spec fn yielding(self) -> ExecModel {
        ExecModel {
            threads: self.threads.with_current(
                self.threads.current().yielded(self.threads.version()),
            ),
            ..self
        }
    }

    /// The execution with the active thread at its end.
    pub open spec fn ending(self) -> ExecModel {
        ExecModel {
            threads: self.threads.with_current(
                Thread { state: State::Terminated, operation: None, ..self.threads.current() },
            ),
            ..self
        }
    }
}

/// Other threads whose pending operations are among the old ones keep the
/// execution valid.
pub proof fn lemma_threads_inv(e: ExecModel, c: Seq<Frozen>, t: ThreadsModel)
    requires
        e.inv(c),
        t.wf(),
        t.threads.len() == e.threads.threads.len(),
        forall|i: int|
            0 <= i < t.threads.len() ==> (#[trigger] t.threads[i]).operation is None
                || t.threads[i].operation == e.threads.threads[i].operation,
    ensures
        (ExecModel { threads: t, ..e }).inv(c),
{
    let n = ExecModel { threads: t, ..e };
    assert forall|i: int| 0 <= i < n.threads.threads.len() implies ((
    #[trigger] n.threads.threads[i]).operation matches Some(op) ==> op.object
        < n.objects.len()) by {
        assert(n.threads.threads[i].operation is None || n.threads.threads[i].operation
            == e.threads.threads[i].operation);
    }
}

impl Threads {
    /// Wake a thread. It has then seen what the active thread has.
    pub fn unpark(&mut self, id: usize)
        requires
            old(self)@.running(),
            id < old(self)@.threads.len(),
        ensures
            final(self)@ == old(self)@.unparked(id as int),
            final(self)@.running(),
    {
        let mut th: Thread = self.get(id);
        if id != self.active_id() {
            th.causality.join(&self.causality());
        }
        match th.state {
            State::Blocked { .. } | State::Yield => {
                th.state = State::Runnable { unparked: false };
            },
            State::Runnable { .. } => {
                th.state = State::Runnable { unparked: true };
            },
            State::Terminated => {},
        }
        self.set(id, th);
    }
}

impl Execution {
    /// Block the active thread until it is unparked; a timed block ends on its
    /// own where nothing else can run. An unpark that came before is consumed
    /// instead. Returns `true` if a switch is required.
    pub fn park(&mut self, claims: &mut Claims, timed: bool) -> (r: Result<bool, Fault>)
        requires
            old(self)@.running(old(claims)@),
        ensures
            if old(self)@.has_unpark() {
                &&& r == Ok::<bool, Fault>(false)
                &&& final(self)@ == old(self)@.unpark_consumed()
                &&& final(claims)@ == old(claims)@
                &&& final(self)@.running(final(claims)@)
            } else {
                match old(self)@.blocked(timed).scheduled(old(claims)@) {
                    Ok(s) => {
                        &&& r == Ok::<bool, Fault>(s.switch)
                        &&& final(self)@ == s.after
                        &&& final(claims)@ == s.claims
                        &&& s.after.inv(s.claims)
                    },
                    Err(f) => r == Err::<bool, Fault>(f),
                }
            },
            claims_evolve(old(claims)@, final(claims)@),
            claims_wf(final(claims)@),
    {
        let ghost e0 = self@;
        let mut th: Thread = self.threads.current();
        if let State::Runnable { unparked: true } = th.state {
            th.state = State::Runnable { unparked: false };
            self.threads.set_current(th);
            proof {
                lemma_threads_inv(e0, claims@, self.threads@);
                assert(self@ =~= e0.unpark_consumed());
            }
            return Ok(false);
        }
        th.state = State::Blocked { timed };
        th.operation = None;
        self.threads.set_current(th);
        proof {
            lemma_threads_inv(e0, claims@, self.threads@);
            assert(self@ =~= e0.blocked(timed));
        }
        self.schedule(claims)
    }

    /// Wake a thread.
    pub fn unpark(&mut self, claims: &Claims, id: usize)
        requires
            old(self)@.running(claims@),
            id < old(self)@.threads.threads.len(),
        ensures
            final(self)@ == (ExecModel {
                threads: old(self)@.threads.unparked(id as int),
                ..old(self)@
            }),
            final(self)@.running(claims@),
    {
        let ghost e0 = self@;
        self.threads.unpark(id);
        proof {
            lemma_threads_inv(e0, claims@, self.threads@);
        }
    }

    /// Let the other threads run first. Returns `true` if a switch is
    /// required.
    pub fn yield_now(&mut self, claims: &mut Claims) -> (r: Result<bool, Fault>)
        requires
            old(self)@.running(old(claims)@),
        ensures
            match old(self)@.yielding().scheduled(old(claims)@) {
                Ok(s) => {
                    &&& r == Ok::<bool, Fault>(s.switch)
                    &&& final(self)@ == s.after
                    &&& final(claims)@ == s.claims
                    &&& s.after.inv(s.claims)
                },
                Err(f) => r == Err::<bool, Fault>(f),
            },
            claims_evolve(old(claims)@, final(claims)@),
            claims_wf(final(claims)@),
    {
        let ghost e0 = self@;
        let mut th: Thread = self.threads.current();
        th.state = State::Yield;
        th.operation = None;
        th.last_yield = Some(self.threads.active_atomic_version());
        if th.yield_count < usize::MAX {
            th.yield_count = th.yield_count + 1;
        }
        self.threads.set_current(th);
        proof {
            lemma_threads_inv(e0, claims@, self.threads@);
            assert(self@ =~= e0.yielding());
        }
        self.schedule(claims)
    }

    /// End the active thread. Returns `true` if a switch is required, which is
    /// also so where no thread is left to run.
    pub fn thread_done(&mut self, claims: &mut Claims) -> (r: Result<bool, Fault>)
        requires
            old(self)@.running(old(claims)@),
        ensures
            match old(self)@.ending().scheduled(old(claims)@) {
                Ok(s) => {
                    &&& r == Ok::<bool, Fault>(s.switch)
                    &&& final(self)@ == s.after
                    &&& final(claims)@ == s.claims
                    &&& s.after.inv(s.claims)
                },
                Err(f) => r == Err::<bool, Fault>(f),
            },
            claims_evolve(old(claims)@, final(claims)@),
            claims_wf(final(claims)@),
    {
        let ghost e0 = self@;
        let mut th: Thread = self.threads.current();
        th.state = State::Terminated;
        th.operation = None;
        self.threads.set_current(th);
        proof {
            lemma_threads_inv(e0, claims@, self.threads@);
            assert(self@ =~= e0.ending());
        }
        self.schedule(claims)
    }
}

} // verus!
