//! Mutexes, and waiting on condition variables.
use vstd::prelude::*;

use crate::rt::claims::{claims_evolve, claims_wf, Claims, Frozen};
use crate::rt::condvar::{Condvar, CondvarModel};
use crate::rt::execution::{lemma_names_cells_same, ExecModel, Execution};
use crate::rt::fault::Fault;
use crate::rt::mutex::Mutex;
use crate::rt::object::{Object, ObjectModel};
use crate::rt::order::Order;
use crate::rt::park::lemma_threads_inv;
use crate::rt::thread::{Action, Operation, State, Thread, ThreadsModel};

verus! {

impl ThreadsModel {
    /// The threads with every other one that is about to operate on `object`
    /// put into `state`.
    pub open spec fn contenders(self, object: usize, state: State) -> ThreadsModel {
        ThreadsModel {
            threads: self.threads.map(
                |i: int, th: Thread|
                    if i != self.me() && th.operation is Some && th.operation->Some_0.object
                        == object {
                        Thread { state, ..th }
                    } else {
                        th
                    },
            ),
            ..self
        }
    }
}

/// What a step of an operation gives.
pub struct Stepped {
    pub after: ExecModel,
    pub claims: Seq<Frozen>,
    pub wait: Wait,
    pub event: Event,
}

impl ExecModel {
    pub open spec fn is_mutex(self, object: int) -> bool {
        0 <= object < self.objects.len() && self.objects[object] is Mutex
    }

    pub open spec fn mutex(self, object: int) -> Mutex {
        self.objects[object]->Mutex_0
    }

    pub open spec fn with_mutex(self, object: int, m: Mutex) -> ExecModel {
        ExecModel { objects: self.objects.update(object, ObjectModel::Mutex(m)), ..self }
    }

    pub open spec fn is_condvar(self, object: int) -> bool {
        0 <= object < self.objects.len() && self.objects[object] is Condvar
    }

    pub open spec fn condvar(self, object: int) -> CondvarModel {
        self.objects[object]->Condvar_0
    }

    pub open spec fn with_condvar(self, object: int, c: CondvarModel) -> ExecModel {
        ExecModel { objects: self.objects.update(object, ObjectModel::Condvar(c)), ..self }
    }

    /// The execution with the active thread about to lock the mutex, and
    /// blocked where the mutex is held.
    pub open spec fn contending(self, object: usize) -> ExecModel {
        let th = self.threads.current();
        ExecModel {
            threads: self.threads.with_current(
                Thread {
                    operation: Some(Operation { object, action: Action::Opaque }),
                    state: if self.mutex(object as int).lock is Some {
                        State::Blocked { timed: false }
                    } else {
                        th.state
                    },
                    ..th
                },
            ),
            ..self
        }
    }

    /// The execution after the active thread locked the mutex: it acquires
    /// what the last holder released, and every other contender is blocked.
    pub open spec fn locked(self, object: usize) -> Result<ExecModel, Fault> {
        let m = self.mutex(object as int);
        if m.lock is Some {
            Err(Fault::Locked)
        } else {
            let t = self.threads.synced(m.sync.happens_before, Order::Acquire);
            Ok(
                ExecModel {
                    threads: t.contenders(object, State::Blocked { timed: false }),
                    ..self.with_mutex(
                        object as int,
                        Mutex { lock: Some(self.threads.me() as usize), ..m },
                    )
                },
            )
        }
    }

    /// The execution after the active thread released the mutex: every
    /// contender can run again.
    pub open spec fn unlocked(self, object: usize) -> ExecModel {
        let m = self.mutex(object as int);
        ExecModel {
            threads: self.threads.contenders(object, State::Runnable { unparked: false }),
            ..self.with_mutex(
                object as int,
                Mutex { lock: None, sync: m.sync.stored(self.threads, Order::Release), ..m },
            )
        }
    }

    /// Whether a wait on the condition variable wakes on its own: a branch of
    /// the path, explored both ways, at most once per condition variable and
    /// execution.
    pub open spec fn spurred(self, object: int) -> Result<(ExecModel, bool), Fault> {
        let c = self.condvar(object);
        if c.did_spur {
            Ok((self, false))
        } else {
            match self.path.spurious_branch() {
                Err(f) => Err(f),
                Ok((path, spur)) => {
                    let e = ExecModel { path, ..self };
                    Ok(
                        (
                            if spur {
                                e.with_condvar(object, CondvarModel { did_spur: true, ..c })
                            } else {
                                e
                            },
                            spur,
                        ),
                    )
                },
            }
        }
    }

    /// The execution with the active thread waiting on the condition variable.
    pub open spec fn enqueued(self, object: int) -> ExecModel {
        self.with_condvar(object, self.condvar(object).enqueued(self.threads.me() as usize))
    }

    /// The execution after the active thread stopped waiting, and whether no
    /// notification had reached it.
    pub open spec fn dequeued_self(self, object: int) -> (ExecModel, bool) {
        let (c, waiting) = self.condvar(object).left(self.threads.me() as usize);
        (self.with_condvar(object, c), waiting)
    }

    /// The execution after the first `n` waiters, as they are, were woken.
    pub open spec fn woke(self, waiters: Seq<usize>, n: int) -> ExecModel
        decreases n,
    {
        if n <= 0 {
            self
        } else {
            let e = self.woke(waiters, n - 1);
            if waiters[n - 1] < e.threads.threads.len() {
                ExecModel { threads: e.threads.unparked(waiters[n - 1] as int), ..e }
            } else {
                e
            }
        }
    }

    /// The execution after one waiter was notified.
    pub open spec fn notified_one(self, object: int) -> ExecModel {
        let c = self.condvar(object);
        let n: int = if c.waiters.len() > 0 {
            1
        } else {
            0
        };
        self.with_condvar(object, c.dequeued()).woke(c.waiters, n)
    }

    /// The execution after all waiters were notified.
    pub open spec fn notified_all(self, object: int) -> ExecModel {
        let c = self.condvar(object);
        self.with_condvar(object, CondvarModel { waiters: Seq::empty(), ..c }).woke(
            c.waiters,
            c.waiters.len() as int,
        )
    }

    /// A decision that begins the reacquisition of the mutex.
    pub open spec fn relocking(self, c: Seq<Frozen>, w: Wait, timed_out: bool) -> Result<
        Stepped,
        Fault,
    > {
        match self.contending(w.mutex).scheduled(c) {
            Err(f) => Err(f),
            Ok(s) => Ok(
                Stepped {
                    after: s.after,
                    claims: s.claims,
                    wait: Wait { phase: Phase::Relock { timed_out }, ..w },
                    event: Event::Pending { switch: s.switch },
                },
            ),
        }
    }

    /// One step of a wait.
    pub open spec fn waited(self, c: Seq<Frozen>, w: Wait) -> Result<Stepped, Fault> {
        match w.phase {
            Phase::Announce => match self.begun(c, w.condvar, Action::Opaque) {
                Err(f) => Err(f),
                Ok(s) => Ok(
                    Stepped {
                        after: s.after,
                        claims: s.claims,
                        wait: Wait { phase: Phase::Decide, ..w },
                        event: Event::Pending { switch: s.switch },
                    },
                ),
            },
            Phase::Decide => match self.spurred(w.condvar as int) {
                Err(f) => Err(f),
                Ok((e, true)) => e.unlocked(w.mutex).relocking(c, w, w.timed),
                Ok((e, false)) => {
                    let e1 = e.enqueued(w.condvar as int).unlocked(w.mutex);
                    let woken = Wait { phase: Phase::Woken, ..w };
                    if e1.has_unpark() {
                        Ok(
                            Stepped {
                                after: e1.unpark_consumed(),
                                claims: c,
                                wait: woken,
                                event: Event::Pending { switch: false },
                            },
                        )
                    } else {
                        match e1.blocked(w.timed).scheduled(c) {
                            Err(f) => Err(f),
                            Ok(s) => Ok(
                                Stepped {
                                    after: s.after,
                                    claims: s.claims,
                                    wait: woken,
                                    event: Event::Pending { switch: s.switch },
                                },
                            ),
                        }
                    }
                },
            },
            Phase::Woken => {
                let (e, waiting) = self.dequeued_self(w.condvar as int);
                e.relocking(c, w, w.timed && waiting)
            },
            Phase::Relock { timed_out } => match self.locked(w.mutex) {
                Err(f) => Err(f),
                Ok(e) => Ok(
                    Stepped { after: e, claims: c, wait: w, event: Event::Finished { timed_out } },
                ),
            },
        }
    }
}

/// Where a wait stands.
#[derive(Debug, Clone, Copy, PartialEq, Eq, Structural)]
pub enum Phase {
    /// The wait has to announce itself.
    Announce,
    /// The wait decides whether it wakes on its own.
    Decide,
    /// The thread was parked, and has woken.
    Woken,
    /// The mutex is to be taken again.
    Relock { timed_out: bool },
}

/// What a step of a wait asks for.
#[derive(Debug, Clone, Copy, PartialEq, Eq, Structural)]
pub enum Event {
    /// The wait goes on when its thread runs again; another thread has to run
    /// first where a switch is required.
    Pending { switch: bool },
    /// The wait is over, with the mutex held. `timed_out` is true iff it ended
    /// by its timeout.
    Finished { timed_out: bool },
}

/// A wait of the active thread on a condition variable, with the mutex held:
/// until it receives a notification, wakes spuriously, or (for a timed wait)
/// its timeout fires.
#[derive(Debug, Clone, Copy)]
pub struct Wait {
    pub condvar: usize,
    pub mutex: usize,
    pub timed: bool,
    pub phase: Phase,
}

/// An object replaced by a valid one of its kind keeps the execution valid.
pub proof fn lemma_object_inv(e: ExecModel, c: Seq<Frozen>, i: int, o: ObjectModel)
    requires
        e.inv(c),
        0 <= i < e.objects.len(),
        o.wf(),
        e.objects[i] is Atomic ==> o is Atomic,
    ensures
        (ExecModel { objects: e.objects.update(i, o), ..e }).inv(c),
{
    let n = ExecModel { objects: e.objects.update(i, o), ..e };
    lemma_names_cells_same(e.deferred, e.objects, n.objects);
    lemma_names_cells_same(e.materialized, e.objects, n.objects);
    assert forall|k: int| 0 <= k < n.objects.len() implies (#[trigger] n.objects[k]).wf() by {
        if k != i {
            assert(e.objects[k].wf());
        }
    }
}

impl Execution {
    /// Put every other thread that is about to operate on `object` into
    /// `state`.
    fn set_contenders(&mut self, claims: &Claims, object: usize, state: State)
        requires
            old(self)@.running(claims@),
        ensures
            final(self)@ == (ExecModel {
                threads: old(self)@.threads.contenders(object, state),
                ..old(self)@
            }),
            final(self)@.running(claims@),
    {
        let ghost e0 = self@;
        let ghost want = e0.threads.contenders(object, state);
        let me: usize = self.threads.active_id();
        let mut i: usize = 0;
        while i < self.threads.len()
            invariant
                e0 == old(self)@,
                me == e0.threads.me(),
                want == e0.threads.contenders(object, state),
                i <= self@.threads.threads.len() == e0.threads.threads.len(),
                self@ == (ExecModel { threads: self@.threads, ..e0 }),
                self@.threads == (ThreadsModel { threads: self@.threads.threads, ..e0.threads }),
                forall|k: int|
                    0 <= k < i ==> #[trigger] self@.threads.threads[k] == want.threads[k],
                forall|k: int|
                    i <= k < self@.threads.threads.len() ==> #[trigger] self@.threads.threads[k]
                        == e0.threads.threads[k],
            decreases self@.threads.threads.len() - i,
        {
            let mut th: Thread = self.threads.get(i);
            assert(th == e0.threads.threads[i as int]);
            let contends: bool = match th.operation {
                Some(op) => op.object == object,
                None => false,
            };
            if i != me && contends {
                th.state = state;
                self.threads.set(i, th);
            }
            i += 1;
        }
        proof {
            assert(self@.threads.threads =~= want.threads);
            lemma_threads_inv(e0, claims@, want);
        }
    }

    /// Create a mutex, held by `lock`.
    pub fn new_mutex(&mut self, claims: &Claims, lock: Option<usize>) -> (r: usize)
        requires
            old(self)@.running(claims@),
        ensures
            r == old(self)@.objects.len(),
            final(self)@ == (ExecModel {
                objects: old(self)@.objects.push(
                    ObjectModel::Mutex(Mutex { lock, ..Mutex::fresh() }),
                ),
                ..old(self)@
            }),
            final(self)@.running(claims@),
            final(self)@.is_mutex(r as int),
    {
        let object: usize = self.objects.len();
        let mut mutex: Mutex = Mutex::new();
        mutex.lock = lock;
        proof {
            crate::rt::cells::lemma_new_object(self@, claims@, ObjectModel::Mutex(mutex));
        }
        self.objects.push(Object::Mutex(mutex));
        assert(self@.objects =~= old(self)@.objects.push(ObjectModel::Mutex(mutex)));
        object
    }

    /// Create a condition variable.
    pub fn new_condvar(&mut self, claims: &Claims) -> (r: usize)
        requires
            old(self)@.running(claims@),
        ensures
            r == old(self)@.objects.len(),
            final(self)@ == (ExecModel {
                objects: old(self)@.objects.push(ObjectModel::Condvar(CondvarModel::fresh())),
                ..old(self)@
            }),
            final(self)@.running(claims@),
            final(self)@.is_condvar(r as int),
    {
        let object: usize = self.objects.len();
        proof {
            crate::rt::cells::lemma_new_object(
                self@,
                claims@,
                ObjectModel::Condvar(CondvarModel::fresh()),
            );
        }
        self.objects.push(Object::Condvar(Condvar::new()));
        assert(self@.objects =~= old(self)@.objects.push(
            ObjectModel::Condvar(CondvarModel::fresh()),
        ));
        object
    }

    /// Announce that the active thread locks the mutex, and decide which
    /// thread runs next. Where the mutex is held, the thread is blocked until
    /// it is released. Returns `true` if a switch is required.
    pub fn begin_lock(&mut self, claims: &mut Claims, object: usize) -> (r: Result<bool, Fault>)
        requires
            old(self)@.running(old(claims)@),
            old(self)@.is_mutex(object as int),
        ensures
            match old(self)@.contending(object).scheduled(old(claims)@) {
                Ok(s) => {
                    &&& r == Ok::<bool, Fault>(s.switch)
                    &&& final(self)@ == s.after
                    &&& final(claims)@ == s.claims
                    &&& s.after.inv(s.claims)
                },
                Err(f) => r == Err::<bool, Fault>(f),
            },
            claims_evolve(old(claims)@, final(claims)@),
            claims_wf(final(claims)@),
    {
        let ghost e0 = self@;
        assert(self.objects@[object as int]@ == e0.objects[object as int]);
        let held: bool = match &self.objects[object] {
            Object::Mutex(m) => m.lock.is_some(),
            _ => false,
        };
        let mut th: Thread = self.threads.current();
        th.operation = Some(Operation { object, action: Action::Opaque });
        if held {
            th.state = State::Blocked { timed: false };
        }
        self.threads.set_current(th);
        proof {
            assert(self@ =~= e0.contending(object));
            assert forall|i: int| 0 <= i < self@.threads.threads.len() implies ((
            #[trigger] self@.threads.threads[i]).operation matches Some(op) ==> op.object
                < self@.objects.len()) by {
                if i != e0.threads.me() {
                    assert(self@.threads.threads[i] == e0.threads.threads[i]);
                }
            }
        }
        self.schedule(claims)
    }

    /// Lock the mutex.
    pub fn lock(&mut self, claims: &Claims, object: usize) -> (r: Result<(), Fault>)
        requires
            old(self)@.running(claims@),
            old(self)@.is_mutex(object as int),
        ensures
            match old(self)@.locked(object) {
                Ok(e) => {
                    &&& r is Ok
                    &&& final(self)@ == e
                    &&& e.running(claims@)
                },
                Err(f) => r == Err::<(), Fault>(f),
            },
    {
        let ghost e0 = self@;
        let me: usize = self.threads.active_id();
        assert(self.objects@[object as int]@ == e0.objects[object as int]);
        if let Object::Mutex(m) = &mut self.objects[object] {
            if m.lock.is_some() {
                return Err(Fault::Locked);
            }
            m.lock = Some(me);
            let sync = m.sync;
            sync.sync_load(&mut self.threads, Order::Acquire);
        }
        proof {
            let m = e0.mutex(object as int);
            let n = Mutex { lock: Some(me), ..m };
            assert(self@.objects =~= e0.with_mutex(object as int, n).objects);
            lemma_object_inv(e0, claims@, object as int, ObjectModel::Mutex(n));
            lemma_threads_inv(
                e0.with_mutex(object as int, n),
                claims@,
                e0.threads.synced(m.sync.happens_before, Order::Acquire),
            );
            assert(self@ =~= ExecModel {
                threads: e0.threads.synced(m.sync.happens_before, Order::Acquire),
                ..e0.with_mutex(object as int, n)
            });
        }
        self.set_contenders(claims, object, State::Blocked { timed: false });
        assert(self@ =~= e0.locked(object)->Ok_0);
        Ok(())
    }

    /// Release the mutex.
    pub fn unlock(&mut self, claims: &Claims, object: usize)
        requires
            old(self)@.running(claims@),
            old(self)@.is_mutex(object as int),
        ensures
            final(self)@ == old(self)@.unlocked(object),
            final(self)@.running(claims@),
    {
        let ghost e0 = self@;
        assert(self.objects@[object as int]@ == e0.objects[object as int]);
        if let Object::Mutex(m) = &mut self.objects[object] {
            m.lock = None;
            m.sync.sync_store(&self.threads, Order::Release);
        }
        proof {
            let m = e0.mutex(object as int);
            let n = Mutex { lock: None, sync: m.sync.stored(e0.threads, Order::Release), ..m };
            assert(self@.objects =~= e0.with_mutex(object as int, n).objects);
            lemma_object_inv(e0, claims@, object as int, ObjectModel::Mutex(n));
            assert(self@ =~= e0.with_mutex(object as int, n));
        }
        self.set_contenders(claims, object, State::Runnable { unparked: false });
        assert(self@ =~= e0.unlocked(object));
    }

    /// Decide whether a wait wakes on its own: by its timeout, or spuriously.
    fn decide_spur(&mut self, claims: &Claims, object: usize) -> (r: Result<bool, Fault>)
        requires
            old(self)@.running(claims@),
            old(self)@.is_condvar(object as int),
        ensures
            match old(self)@.spurred(object as int) {
                Ok((e, spur)) => {
                    &&& r == Ok::<bool, Fault>(spur)
                    &&& final(self)@ == e
                    &&& e.running(claims@)
                },
                Err(f) => r == Err::<bool, Fault>(f),
            },
    {
        let ghost e0 = self@;
        assert(self.objects@[object as int]@ == e0.objects[object as int]);
        let might: bool = match &self.objects[object] {
            Object::Condvar(c) => c.might_spur(),
            _ => false,
        };
        if !might {
            return Ok(false);
        }
        let spur: bool = match self.path.branch_spurious(claims) {
            Ok(spur) => spur,
            Err(f) => {
                return Err(f);
            },
        };
        let ghost e1 = self@;
        assert(e1 =~= ExecModel { path: e1.path, ..e0 });
        if spur {
            if let Object::Condvar(c) = &mut self.objects[object] {
                c.did_spur = true;
            }
            proof {
                let n = CondvarModel { did_spur: true, ..e0.condvar(object as int) };
                lemma_object_inv(e1, claims@, object as int, ObjectModel::Condvar(n));
                assert(self@.objects =~= e1.with_condvar(object as int, n).objects);
                assert(self@ =~= e1.with_condvar(object as int, n));
            }
        }
        Ok(spur)
    }

    /// Track the active thread as a waiter.
    fn enqueue_waiter(&mut self, claims: &Claims, object: usize)
        requires
            old(self)@.running(claims@),
            old(self)@.is_condvar(object as int),
        ensures
            final(self)@ == old(self)@.enqueued(object as int),
            final(self)@.running(claims@),
    {
        let ghost e0 = self@;
        let me: usize = self.threads.active_id();
        assert(self.objects@[object as int]@ == e0.objects[object as int]);
        if let Object::Condvar(c) = &mut self.objects[object] {
            c.enqueue(me);
        }
        proof {
            let n = e0.condvar(object as int).enqueued(me);
            lemma_object_inv(e0, claims@, object as int, ObjectModel::Condvar(n));
            assert(self@.objects =~= e0.enqueued(object as int).objects);
            assert(self@ =~= e0.enqueued(object as int));
        }
    }

    /// Stop waiting, reporting whether no notification had reached the thread.
    fn dequeue_waiter(&mut self, claims: &Claims, object: usize) -> (r: bool)
        requires
            old(self)@.running(claims@),
            old(self)@.is_condvar(object as int),
        ensures
            (final(self)@, r) == old(self)@.dequeued_self(object as int),
            final(self)@.running(claims@),
    {
        let ghost e0 = self@;
        let me: usize = self.threads.active_id();
        assert(self.objects@[object as int]@ == e0.objects[object as int]);
        let mut waiting: bool = false;
        if let Object::Condvar(c) = &mut self.objects[object] {
            waiting = c.leave(me);
        }
        proof {
            let n = e0.condvar(object as int).left(me).0;
            lemma_object_inv(e0, claims@, object as int, ObjectModel::Condvar(n));
            assert(self@.objects =~= e0.dequeued_self(object as int).0.objects);
            assert(self@ =~= e0.dequeued_self(object as int).0);
        }
        waiting
    }

    /// Wakes up one blocked thread on the condition variable.
    pub fn notify_one(&mut self, claims: &Claims, object: usize)
        requires
            old(self)@.running(claims@),
            old(self)@.is_condvar(object as int),
        ensures
            final(self)@ == old(self)@.notified_one(object as int),
            final(self)@.running(claims@),
    {
        let ghost e0 = self@;
        assert(self.objects@[object as int]@ == e0.objects[object as int]);
        let mut first: Option<usize> = None;
        if let Object::Condvar(c) = &mut self.objects[object] {
            first = c.dequeue();
        }
        let ghost e1 = e0.with_condvar(object as int, e0.condvar(object as int).dequeued());
        proof {
            lemma_object_inv(
                e0,
                claims@,
                object as int,
                ObjectModel::Condvar(e0.condvar(object as int).dequeued()),
            );
            assert(self@.objects =~= e1.objects);
            assert(self@ =~= e1);
            reveal_with_fuel(ExecModel::woke, 2);
        }
        if let Some(thread) = first {
            if thread < self.threads.len() {
                self.unpark(claims, thread);
            }
        }
    }

    /// Wakes up all blocked threads on the condition variable.
    pub fn notify_all(&mut self, claims: &Claims, object: usize)
        requires
            old(self)@.running(claims@),
            old(self)@.is_condvar(object as int),
        ensures
            final(self)@ == old(self)@.notified_all(object as int),
            final(self)@.running(claims@),
    {
        let ghost e0 = self@;
        let ghost waiters = e0.condvar(object as int).waiters;
        assert(self.objects@[object as int]@ == e0.objects[object as int]);
        let mut all: Vec<usize> = Vec::new();
        if let Object::Condvar(c) = &mut self.objects[object] {
            while c.waiters.len() > 0
                invariant
                    all@ + c@.waiters == waiters,
                    c@ == (CondvarModel { waiters: c@.waiters, ..e0.condvar(object as int) }),
                decreases c@.waiters.len(),
            {
                let ghost before = c@.waiters;
                let ghost listed = all@;
                if let Some(thread) = c.dequeue() {
                    all.push(thread);
                    assert(all@ + c@.waiters =~= listed + before);
                }
            }
            assert(c@.waiters =~= Seq::<usize>::empty());
        }
        assert(all@ =~= waiters);
        let ghost e1 = e0.with_condvar(
            object as int,
            CondvarModel { waiters: Seq::empty(), ..e0.condvar(object as int) },
        );
        proof {
            lemma_object_inv(
                e0,
                claims@,
                object as int,
                ObjectModel::Condvar(
                    CondvarModel { waiters: Seq::empty(), ..e0.condvar(object as int) },
                ),
            );
            assert(self@.objects =~= e1.objects);
            assert(self@ =~= e1);
        }
        let mut i: usize = 0;
        while i < all.len()
            invariant
                i <= all@.len(),
                all@ == waiters,
                self@ == e1.woke(waiters, i as int),
                self@.running(claims@),
            decreases all.len() - i,
        {
            if all[i] < self.threads.len() {
                self.unpark(claims, all[i]);
            }
            i += 1;
        }
    }
}

impl Wait {
    /// Take the next step of the wait. It is over when the step says so.
    pub fn advance(&mut self, execution: &mut Execution, claims: &mut Claims) -> (r: Result<
        Event,
        Fault,
    >)
        requires
            old(execution)@.running(old(claims)@),
            old(execution)@.is_condvar(old(self).condvar as int),
            old(execution)@.is_mutex(old(self).mutex as int),
        ensures
            match old(execution)@.waited(old(claims)@, *old(self)) {
                Ok(s) => {
                    &&& r == Ok::<Event, Fault>(s.event)
                    &&& final(execution)@ == s.after
                    &&& final(claims)@ == s.claims
                    &&& *final(self) == s.wait
                    &&& s.after.inv(s.claims)
                },
                Err(f) => r == Err::<Event, Fault>(f),
            },
            claims_evolve(old(claims)@, final(claims)@),
            claims_wf(final(claims)@),
    {
        match self.phase {
            Phase::Announce => {
                let switch: bool = match execution.begin(claims, self.condvar, Action::Opaque) {
                    Ok(switch) => switch,
                    Err(f) => {
                        return Err(f);
                    },
                };
                self.phase = Phase::Decide;
                Ok(Event::Pending { switch })
            },
            Phase::Decide => {
                let wake_self: bool = match execution.decide_spur(claims, self.condvar) {
                    Ok(spur) => spur,
                    Err(f) => {
                        return Err(f);
                    },
                };
                if wake_self {
                    // Even a wait that never blocks releases and reacquires
                    // the lock: other threads may run in between.
                    execution.unlock(claims, self.mutex);
                    let switch: bool = match execution.begin_lock(claims, self.mutex) {
                        Ok(switch) => switch,
                        Err(f) => {
                            return Err(f);
                        },
                    };
                    self.phase = Phase::Relock { timed_out: self.timed };
                    return Ok(Event::Pending { switch });
                }
                execution.enqueue_waiter(claims, self.condvar);
                execution.unlock(claims, self.mutex);
                // A timed wait can additionally be revived where nothing else
                // can run.
                let switch: bool = match execution.park(claims, self.timed) {
                    Ok(switch) => switch,
                    Err(f) => {
                        return Err(f);
                    },
                };
                self.phase = Phase::Woken;
                Ok(Event::Pending { switch })
            },
            Phase::Woken => {
                let waiting: bool = execution.dequeue_waiter(claims, self.condvar);
                let timed_out: bool = self.timed && waiting;
                let switch: bool = match execution.begin_lock(claims, self.mutex) {
                    Ok(switch) => switch,
                    Err(f) => {
                        return Err(f);
                    },
                };
                self.phase = Phase::Relock { timed_out };
                Ok(Event::Pending { switch })
            },
            Phase::Relock { timed_out } => {
                match execution.lock(claims, self.mutex) {
                    Ok(()) => Ok(Event::Finished { timed_out }),
                    Err(f) => Err(f),
                }
            },
        }
    }
}

} // verus!
