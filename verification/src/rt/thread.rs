//! The threads of an execution.
use vstd::prelude::*;

use crate::rt::order::Order;
use crate::rt::vv::VersionVec;
use crate::rt::MAX_THREADS;

verus! {

/// What a thread is doing.
#[derive(Debug, Clone, Copy, PartialEq, Eq, Structural)]
pub enum State {
    Runnable { unparked: bool },
    /// Blocked; a timed block can end on its own.
    Blocked { timed: bool },
    Yield,
    Terminated,
}

/// What an operation does to its object.
#[derive(Debug, Clone, Copy, PartialEq, Eq, Structural)]
pub enum Action {
    /// The operation depends on every other operation on the object.
    Opaque,
    /// Atomic load of the bits under the mask
    Load { mask: u128 },
    /// Atomic store to the bits under the mask
    Store { mask: u128 },
    /// Atomic read-modify-write: `read` are the bits the operation consults,
    /// `write` the bits it may change, and `write` is contained in `read`.
    /// They differ only for a **preserving** read-modify-write: a wide
    /// compare-and-swap that compares bits it writes back verbatim. On the
    /// preserved bits the operation is a reader.
    Rmw { read: u128, write: u128 },
}

/// A pending operation of a thread: the object, and what is done to it.
#[derive(Debug, Clone, Copy, PartialEq, Eq, Structural)]
pub struct Operation {
    pub object: usize,
    pub action: Action,
}

/// One thread of an execution.
#[derive(Debug, Clone, Copy)]
pub struct Thread {
    pub state: State,
    /// The operation that the thread is about to perform, or has last
    /// performed.
    pub operation: Option<Operation>,
    /// What the thread has seen.
    pub causality: VersionVec,
    /// What the thread had seen at its last release fence.
    pub released: VersionVec,
    /// The clock of the partial-order reduction.
    pub dpor_vv: VersionVec,
    /// The thread's version at its last yield.
    pub last_yield: Option<u16>,
    /// Number of times the thread yielded.
    pub yield_count: usize,
    /// Position of the thread's last `SeqCst` fence in the total order of
    /// sequentially consistent operations.
    pub sc_fence_pos: Option<u32>,
}

impl Thread {
    /// A thread that has done nothing.
    pub open spec fn fresh() -> Thread {
        Thread {
            state: State::Runnable { unparked: false },
            operation: None,
            causality: VersionVec::zero(),
            released: VersionVec::zero(),
            dpor_vv: VersionVec::zero(),
            last_yield: None,
            yield_count: 0,
            sc_fence_pos: None,
        }
    }

    pub fn new() -> (r: Thread)
        ensures
            r == Thread::fresh(),
    {
        Thread {
            state: State::Runnable { unparked: false },
            operation: None,
            causality: VersionVec::new(),
            released: VersionVec::new(),
            dpor_vv: VersionVec::new(),
            last_yield: None,
            yield_count: 0,
            sc_fence_pos: None,
        }
    }

    pub open spec fn runnable(self) -> bool {
        self.state is Runnable
    }

    pub fn is_runnable(&self) -> (r: bool)
        ensures
            r == self.runnable(),
    {
        matches!(self.state, State::Runnable { .. })
    }

    pub fn is_yield(&self) -> (r: bool)
        ensures
            r == (self.state is Yield),
    {
        matches!(self.state, State::Yield)
    }

    pub fn is_terminated(&self) -> (r: bool)
        ensures
            r == (self.state is Terminated),
    {
        matches!(self.state, State::Terminated)
    }

    /// The thread waits with a timeout.
    pub open spec fn blocked_timed(self) -> bool {
        self.state == State::Blocked { timed: true }
    }

    pub fn is_blocked_timed(&self) -> (r: bool)
        ensures
            r == self.blocked_timed(),
    {
        matches!(self.state, State::Blocked { timed: true })
    }
}

/// The threads, which of them is active, and the state of the order of
/// sequentially consistent operations.
pub struct Threads {
    threads: Vec<Thread>,
    active: Option<usize>,
    /// The causality that ordered `SeqCst` fences hand on.
    seq_cst_causality: VersionVec,
    /// The next position in the total order of sequentially consistent
    /// operations.
    sc_clock: u32,
}

/// What a set of threads is.
#[verifier::ext_equal]
pub struct ThreadsModel {
    pub threads: Seq<Thread>,
    pub active: Option<usize>,
    pub seq_cst_causality: VersionVec,
    pub sc_clock: u32,
}

impl View for Threads {
    type V = ThreadsModel;

    closed spec fn view(&self) -> ThreadsModel {
        ThreadsModel {
            threads: self.threads@,
            active: self.active,
            seq_cst_causality: self.seq_cst_causality,
            sc_clock: self.sc_clock,
        }
    }
}

impl ThreadsModel {
    pub open spec fn wf(self) -> bool {
        &&& 1 <= self.threads.len() <= MAX_THREADS
        &&& self.active matches Some(a) ==> a < self.threads.len()
    }

    /// Some thread is active.
    pub open spec fn running(self) -> bool {
        self.wf() && self.active is Some
    }

    /// The index of the active thread.
    pub open spec fn me(self) -> int {
        self.active->Some_0 as int
    }

    /// The active thread.
    pub open spec fn current(self) -> Thread {
        self.threads[self.me()]
    }

    /// The version of the active thread.
    pub open spec fn version(self) -> u16 {
        self.current().causality.at(self.me())
    }

    /// The threads with the active one replaced.
    pub open spec fn with_current(self, th: Thread) -> ThreadsModel {
        ThreadsModel { threads: self.threads.update(self.me(), th), ..self }
    }

    /// The threads with `view` joined into what the active thread has seen.
    pub open spec fn learned(self, view: VersionVec) -> ThreadsModel {
        self.with_current(
            Thread { causality: self.current().causality.joined(view), ..self.current() },
        )
    }

    /// The threads after the active one read a store with release view `view`.
    pub open spec fn synced(self, view: VersionVec, order: Order) -> ThreadsModel {
        if order.joins() {
            self.learned(view)
        } else {
            self
        }
    }

    /// The threads after the active one ticked.
    pub open spec fn ticked(self) -> ThreadsModel {
        self.with_current(
            Thread { causality: self.current().causality.bumped(self.me()), ..self.current() },
        )
    }

    /// The active thread can tick.
    pub open spec fn can_tick(self) -> bool {
        self.version() < u16::MAX
    }

    /// The threads after the active one recorded a release fence.
    pub open spec fn release_fenced(self) -> ThreadsModel {
        self.with_current(Thread { released: self.current().causality, ..self.current() })
    }

    /// The threads after the active one met the other `SeqCst` fences: what
    /// they have seen, it has seen, and the other way round.
    pub open spec fn met_fences(self) -> ThreadsModel {
        let t = self.learned(self.seq_cst_causality);
        ThreadsModel {
            seq_cst_causality: self.seq_cst_causality.joined(t.current().causality),
            ..t
        }
    }

    /// The threads with one position of the sequentially consistent order
    /// handed out.
    pub open spec fn sc_advanced(self) -> ThreadsModel {
        ThreadsModel { sc_clock: (self.sc_clock + 1) as u32, ..self }
    }

    /// The threads with the next position taken by a fence of the active one.
    pub open spec fn sc_fenced(self) -> ThreadsModel {
        self.with_current(
            Thread { sc_fence_pos: Some(self.sc_clock), ..self.current() },
        ).sc_advanced()
    }
}

impl Threads {
    /// One thread, active, that has done nothing.
    pub fn new() -> (r: Threads)
        ensures
            r@ == (ThreadsModel {
                threads: seq![Thread::fresh()],
                active: Some(0),
                seq_cst_causality: VersionVec::zero(),
                sc_clock: 0,
            }),
            r@.running(),
    {
        let mut threads: Vec<Thread> = Vec::new();
        threads.push(Thread::new());
        assert(threads@ =~= seq![Thread::fresh()]);
        Threads { threads, active: Some(0), seq_cst_causality: VersionVec::new(), sc_clock: 0 }
    }

    pub fn len(&self) -> (r: usize)
        ensures
            r == self@.threads.len(),
    {
        self.threads.len()
    }

    pub fn get(&self, i: usize) -> (r: Thread)
        requires
            i < self@.threads.len(),
        ensures
            r == self@.threads[i as int],
    {
        self.threads[i]
    }

    pub(crate) fn set(&mut self, i: usize, thread: Thread)
        requires
            i < old(self)@.threads.len(),
        ensures
            final(self)@ == (ThreadsModel {
                threads: old(self)@.threads.update(i as int, thread),
                ..old(self)@
            }),
    {
        self.threads[i] = thread;
    }

    pub(crate) fn push(&mut self, thread: Thread)
        ensures
            final(self)@ == (ThreadsModel {
                threads: old(self)@.threads.push(thread),
                ..old(self)@
            }),
    {
        self.threads.push(thread);
    }

    pub fn active(&self) -> (r: Option<usize>)
        ensures
            r == self@.active,
    {
        self.active
    }

    pub(crate) fn set_active(&mut self, active: Option<usize>)
        ensures
            final(self)@ == (ThreadsModel { active, ..old(self)@ }),
    {
        self.active = active;
    }

    /// The index of the active thread.
    pub fn active_id(&self) -> (r: usize)
        requires
            self@.running(),
        ensures
            r == self@.me(),
            r < MAX_THREADS,
    {
        match self.active {
            Some(a) => a,
            None => 0,
        }
    }

    /// The active thread.
    pub fn current(&self) -> (r: Thread)
        requires
            self@.running(),
        ensures
            r == self@.current(),
    {
        self.threads[self.active_id()]
    }

    pub(crate) fn set_current(&mut self, thread: Thread)
        requires
            old(self)@.running(),
        ensures
            final(self)@ == old(self)@.with_current(thread),
            final(self)@.running(),
    {
        let i: usize = self.active_id();
        self.threads[i] = thread;
    }

    /// What the active thread has seen.
    pub fn causality(&self) -> (r: VersionVec)
        requires
            self@.running(),
        ensures
            r == self@.current().causality,
    {
        self.current().causality
    }

    /// The version of the active thread.
    pub fn active_atomic_version(&self) -> (r: u16)
        requires
            self@.running(),
        ensures
            r == self@.version(),
    {
        self.current().causality.lane(self.active_id())
    }

    /// Advance the version of the active thread.
    pub fn active_causality_inc(&mut self)
        requires
            old(self)@.running(),
            old(self)@.can_tick(),
        ensures
            final(self)@ == old(self)@.ticked(),
            final(self)@.running(),
    {
        let id: usize = self.active_id();
        let mut th: Thread = self.current();
        th.causality.inc(id);
        self.set_current(th);
    }

    /// Join `view` into what the active thread has seen.
    pub fn learn(&mut self, view: &VersionVec)
        requires
            old(self)@.running(),
        ensures
            final(self)@ == old(self)@.learned(*view),
            final(self)@.running(),
    {
        let mut th: Thread = self.current();
        th.causality.join(view);
        self.set_current(th);
    }

    /// Position of the active thread's last `SeqCst` fence.
    pub fn active_sc_fence_pos(&self) -> (r: Option<u32>)
        requires
            self@.running(),
        ensures
            r == self@.current().sc_fence_pos,
    {
        self.current().sc_fence_pos
    }

    /// Whether a position of the sequentially consistent order is left.
    pub fn has_sc_pos(&self) -> (r: bool)
        ensures
            r == (self@.sc_clock < u32::MAX),
    {
        self.sc_clock < u32::MAX
    }

    /// The next position in the total order of sequentially consistent
    /// operations.
    pub fn next_sc_pos(&mut self) -> (r: u32)
        requires
            old(self)@.sc_clock < u32::MAX,
        ensures
            r == old(self)@.sc_clock,
            final(self)@ == old(self)@.sc_advanced(),
    {
        let pos: u32 = self.sc_clock;
        self.sc_clock = pos + 1;
        pos
    }

    /// Take the next position for a fence of the active thread.
    pub fn begin_sc_fence(&mut self) -> (r: u32)
        requires
            old(self)@.running(),
            old(self)@.sc_clock < u32::MAX,
        ensures
            r == old(self)@.sc_clock,
            final(self)@ == old(self)@.sc_fenced(),
            final(self)@.running(),
    {
        let mut th: Thread = self.current();
        th.sc_fence_pos = Some(self.sc_clock);
        self.set_current(th);
        self.next_sc_pos()
    }

    /// Order the active thread after the `SeqCst` fences before it, and the
    /// later ones after it.
    pub fn seq_cst_fence(&mut self)
        requires
            old(self)@.running(),
        ensures
            final(self)@ == old(self)@.met_fences(),
            final(self)@.running(),
    {
        let frontier: VersionVec = self.seq_cst_causality;
        self.learn(&frontier);
        let seen: VersionVec = self.causality();
        self.seq_cst_causality.join(&seen);
    }

    /// Record what the active thread has seen as its release view.
    pub fn release_fence(&mut self)
        requires
            old(self)@.running(),
        ensures
            final(self)@ == old(self)@.release_fenced(),
            final(self)@.running(),
    {
        let mut th: Thread = self.current();
        th.released = th.causality;
        self.set_current(th);
    }
}

} // verus!
