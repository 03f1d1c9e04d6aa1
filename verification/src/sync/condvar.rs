//! Condition variables.
use vstd::prelude::*;

use crate::rt::claims::Claims;
use crate::rt::condvar::CondvarModel;
use crate::rt::execution::{ExecModel, Execution};
use crate::rt::object::ObjectModel;
use crate::rt::wait::{Phase, Wait};

verus! {

/// A condition variable of the code under test: its object.
#[derive(Debug, Clone, Copy, PartialEq, Eq, Structural)]
pub struct Condvar {
    pub object: usize,
}

/// A type indicating whether a timed wait on a condition variable returned due
/// to a time out or not.
#[derive(Debug, Clone, Copy, PartialEq, Eq, Structural)]
pub struct WaitTimeoutResult(pub bool);

impl Condvar {
    /// Creates a new condition variable which is ready to be waited on and
    /// notified.
    pub fn new(execution: &mut Execution, claims: &Claims) -> (r: Condvar)
        requires
            old(execution)@.running(claims@),
        ensures
            r.object == old(execution)@.objects.len(),
            final(execution)@ == (ExecModel {
                objects: old(execution)@.objects.push(
                    ObjectModel::Condvar(CondvarModel::fresh()),
                ),
                ..old(execution)@
            }),
            final(execution)@.running(claims@),
            final(execution)@.is_condvar(r.object as int),
    {
        Condvar { object: execution.new_condvar(claims) }
    }

    /// Begins a wait for a notification, which gives up the mutex and takes it
    /// again at the end.
    ///
    /// The wait is subject to spurious wakeups (at most one per condition
    /// variable and execution), so callers must check their condition again in
    /// a loop.
    pub fn wait(&self, mutex: usize) -> (r: Wait)
        ensures
            r == (Wait {
                condvar: self.object,
                mutex,
                timed: false,
                phase: Phase::Announce,
            }),
    {
        Wait { condvar: self.object, mutex, timed: false, phase: Phase::Announce }
    }

    /// Begins a wait for a notification that may time out.
    ///
    /// There is no clock: the timeout is a branch of its own. A wait that no
    /// notification can ever reach always resolves by the timeout.
    pub fn wait_timeout(&self, mutex: usize) -> (r: Wait)
        ensures
            r == (Wait {
                condvar: self.object,
                mutex,
                timed: true,
                phase: Phase::Announce,
            }),
    {
        Wait { condvar: self.object, mutex, timed: true, phase: Phase::Announce }
    }

    /// Wakes up one blocked thread on this condvar.
    pub fn notify_one(&self, execution: &mut Execution, claims: &Claims)
        requires
            old(execution)@.running(claims@),
            old(execution)@.is_condvar(self.object as int),
        ensures
            final(execution)@ == old(execution)@.notified_one(self.object as int),
            final(execution)@.running(claims@),
    {
        execution.notify_one(claims, self.object);
    }

    /// Wakes up all blocked threads on this condvar.
    pub fn notify_all(&self, execution: &mut Execution, claims: &Claims)
        requires
            old(execution)@.running(claims@),
            old(execution)@.is_condvar(self.object as int),
        ensures
            final(execution)@ == old(execution)@.notified_all(self.object as int),
            final(execution)@.running(claims@),
    {
        execution.notify_all(claims, self.object);
    }
}

impl WaitTimeoutResult {
    /// Returns `true` if the wait was known to have timed out.
    pub fn timed_out(&self) -> (r: bool)
        ensures
            r == self.0,
    {
        self.0
    }
}

} // verus!
