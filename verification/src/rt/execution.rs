//! One execution of the model: the threads, the objects they share, and the
//! path they take.
use rustc_hash::FxHashMap;
use vstd::prelude::*;

use crate::rt::access::Access;
use crate::rt::atomic::state::{State, StateModel};
use crate::rt::bits;
use crate::rt::claims::{claims_evolve, claims_wf, lemma_claims_evolve_trans, Claims, Frozen};
use crate::rt::fault::Fault;
use crate::rt::lazy_static::{Statics, StaticsModel};
use crate::rt::object::{object_views, Object, ObjectModel};
use crate::rt::path::{Path, PathModel};
use crate::rt::sleep::SleepSet;
use crate::rt::table::{no_entries, table_clear, table_new};
use crate::rt::thread::{Operation, Thread, Threads, ThreadsModel};
use crate::rt::vv::VersionVec;
use crate::rt::MAX_THREADS;

verus! {

/// A range of raw memory a thread declared published, and that thread's
/// causality at the moment it did.
#[derive(Debug, Clone, Copy)]
pub struct PublishedRegion {
    pub base: u64,
    pub len: u64,
    pub causality: VersionVec,
}

/// One execution. The same instance is reused across permutations.
pub struct Execution {
    /// Uniquely identifies an execution
    pub id: usize,
    /// Execution path taken
    pub path: Path,
    pub threads: Threads,
    pub lazy_statics: Statics,
    /// All objects that are part of this execution run.
    pub objects: Vec<Object>,
    /// Cells of earlier runs, for reuse.
    pub spares: Vec<State>,
    /// Cells that register on their first access, by their identity.
    pub deferred_atomics: FxHashMap<u64, usize>,
    /// Cells in published memory, by their address.
    pub materialized: FxHashMap<u64, usize>,
    /// Memory that was declared published.
    pub published_regions: Vec<PublishedRegion>,
    /// The object whose access records the previous `schedule()` call updated,
    /// if any. This is what makes the backtrack scan event-driven.
    pub dpor_update: Option<usize>,
    /// Threads whose next operation is covered by a sibling subtree.
    pub sleep: SleepSet,
    /// Whether covered threads are put to sleep.
    pub sleep_sets: bool,
    /// Executions that a sleep set proved redundant.
    pub pruned: usize,
    /// Whether cells of earlier runs are used again instead of built anew.
    pub reuse_objects: bool,
    /// Maximum number of concurrent threads
    pub max_threads: usize,
}

/// What an execution is.
#[verifier::ext_equal]
pub struct ExecModel {
    pub path: PathModel,
    pub threads: ThreadsModel,
    pub statics: StaticsModel,
    pub objects: Seq<ObjectModel>,
    pub deferred: Map<u64, usize>,
    pub materialized: Map<u64, usize>,
    pub published: Seq<PublishedRegion>,
    pub dpor_update: Option<usize>,
    pub sleep: SleepSet,
    pub sleep_sets: bool,
    pub pruned: int,
    pub max_threads: int,
}

impl View for Execution {
    type V = ExecModel;

    open spec fn view(&self) -> ExecModel {
        ExecModel {
            path: self.path@,
            threads: self.threads@,
            statics: self.lazy_statics@,
            objects: object_views(self.objects@),
            deferred: self.deferred_atomics@,
            materialized: self.materialized@,
            published: self.published_regions@,
            dpor_update: self.dpor_update,
            sleep: self.sleep,
            sleep_sets: self.sleep_sets,
            pruned: self.pruned as int,
            max_threads: self.max_threads as int,
        }
    }
}

/// Every entry of the table names an atomic cell of its own.
pub open spec fn names_cells(table: Map<u64, usize>, objects: Seq<ObjectModel>) -> bool {
    &&& forall|k: u64| #[trigger]
        table.contains_key(k) ==> table[k] < objects.len() && objects[table[k] as int] is Atomic
    &&& forall|k: u64, l: u64|
        #![trigger table.contains_key(k), table.contains_key(l)]
        table.contains_key(k) && table.contains_key(l) && k != l ==> table[k] != table[l]
}

/// The outcome of a scheduling decision: the execution, the table of claims,
/// and whether another thread has to run.
pub struct Scheduled {
    pub after: ExecModel,
    pub claims: Seq<Frozen>,
    pub switch: bool,
}

/// The path and the table after every access of `accesses[k..]` that is
/// concurrent with an operation of thread `t` with clock `vv` was recorded as
/// a race.
pub open spec fn raced_with(
    p: PathModel,
    c: Seq<Frozen>,
    accesses: Seq<Access>,
    vv: VersionVec,
    t: int,
    k: int,
) -> (PathModel, Seq<Frozen>)
    decreases accesses.len() - k,
{
    if k >= accesses.len() {
        (p, c)
    } else if accesses[k].precedes(vv) {
        raced_with(p, c, accesses, vv, t, k + 1)
    } else {
        let (p1, c1) = p.backtracked(c, accesses[k].path_id as int, t);
        raced_with(p1, c1, accesses, vv, t, k + 1)
    }
}

/// A clock joined with those of the first `n` accesses.
pub open spec fn joined_with(vv: VersionVec, accesses: Seq<Access>, n: int) -> VersionVec
    decreases n,
{
    if n <= 0 {
        vv
    } else {
        joined_with(vv, accesses, n - 1).joined(accesses[n - 1].dpor_vv)
    }
}

impl ExecModel {
    /// The execution is valid.
    pub open spec fn inv(self, c: Seq<Frozen>) -> bool {
        &&& self.path.inv(c)
        &&& self.threads.wf()
        &&& self.statics.wf()
        &&& 0 <= self.pruned <= usize::MAX
        &&& self.max_threads <= MAX_THREADS
        &&& forall|i: int| 0 <= i < self.objects.len() ==> (#[trigger] self.objects[i]).wf()
        &&& forall|i: int|
            0 <= i < self.threads.threads.len() ==> ((#[trigger] self.threads.threads[i]).operation matches Some(
            op,
        ) ==> op.object < self.objects.len())
        &&& names_cells(self.deferred, self.objects)
        &&& names_cells(self.materialized, self.objects)
        &&& forall|i: int|
            0 <= i < self.published.len() ==> (#[trigger] self.published[i]).base
                + self.published[i].len <= u64::MAX
    }

    /// The execution is valid and some thread is active.
    pub open spec fn running(self, c: Seq<Frozen>) -> bool {
        self.inv(c) && self.threads.active is Some
    }

    /// The object is an atomic cell.
    pub open spec fn is_cell(self, object: int) -> bool {
        0 <= object < self.objects.len() && self.objects[object] is Atomic
    }

    /// The atomic cell at `object`.
    pub open spec fn cell(self, object: int) -> StateModel {
        self.objects[object]->Atomic_0
    }

    /// The execution with the cell at `object` replaced.
    pub open spec fn with_cell(self, object: int, cell: StateModel) -> ExecModel {
        ExecModel { objects: self.objects.update(object, ObjectModel::Atomic(cell)), ..self }
    }

    // ----- scheduling -----
    /// The path and the table after the pending operations of the threads from
    /// `i` on were checked for races.
    ///
    /// Only two kinds of pairs can produce a race not yet recorded: those of
    /// the thread that just ran, whose operation and clock changed, and those
    /// on the object whose records the previous decision updated.
    pub open spec fn raced_from(self, p: PathModel, c: Seq<Frozen>, i: int) -> (
        PathModel,
        Seq<Frozen>,
    )
        decreases self.threads.threads.len() - i,
    {
        if i >= self.threads.threads.len() {
            (p, c)
        } else {
            let th = self.threads.threads[i];
            match th.operation {
                Some(op) if i == self.threads.me() || self.dpor_update == Some(op.object) => {
                    let (p1, c1) = raced_with(
                        p,
                        c,
                        self.objects[op.object as int].dependent(op.action),
                        th.dpor_vv,
                        i,
                        0,
                    );
                    self.raced_from(p1, c1, i + 1)
                },
                _ => self.raced_from(p, c, i + 1),
            }
        }
    }

    /// The execution after thread `next` was chosen: its operation is recorded
    /// as the last access to its object, its clock dominates every conflicting
    /// predecessor, and yielded threads may run again.
    ///
    /// A chosen thread that still sleeps proves the rest of the execution
    /// redundant: it goes on as a scout that explores nothing.
    pub open spec fn chosen(
        self,
        p: PathModel,
        t: ThreadsModel,
        asleep: u16,
        path_id: int,
        next: int,
        covered: u16,
    ) -> Result<ExecModel, Fault> {
        let t1 = ThreadsModel { active: Some(next as usize), ..t };
        let redundant = self.sleep_sets && bits::holds(asleep, next) && !p.skipping;
        let e = ExecModel {
            path: if redundant {
                PathModel { exploring: false, skipping: true, ..p }
            } else {
                p
            },
            pruned: if redundant && self.pruned < usize::MAX {
                self.pruned + 1
            } else {
                self.pruned
            },
            sleep: SleepSet {
                asleep: if self.sleep_sets {
                    (asleep | covered) & !t1.wake_set(next, t1.threads.len() as int)
                } else {
                    asleep
                },
            },
            ..self
        };
        match t1.current().operation {
            None => Ok(
                ExecModel { threads: t1.reactivated(next), dpor_update: None, ..e },
            ),
            Some(op) => {
                let object = op.object as int;
                let deps = self.objects[object].dependent(op.action);
                let vv = joined_with(t1.current().dpor_vv, deps, deps.len() as int);
                if vv.at(next) == u16::MAX {
                    Err(Fault::Exhausted)
                } else {
                    let clock = vv.bumped(next);
                    let access = Access { path_id: path_id as usize, dpor_vv: clock };
                    Ok(
                        ExecModel {
                            threads: t1.with_current(
                                Thread { dpor_vv: clock, ..t1.current() },
                            ).reactivated(next),
                            objects: self.objects.update(
                                object,
                                self.objects[object].accessed(op.action, next, access),
                            ),
                            dpor_update: Some(op.object),
                            ..e
                        },
                    )
                }
            },
        }
    }

    /// The scheduling decision.
    pub open spec fn scheduled(self, c: Seq<Frozen>) -> Result<Scheduled, Fault> {
        let (p1, c1) = self.raced_from(self.path, c, 0);
        let t = self.threads.rescued();
        let asleep = if self.threads.timeouts_fire() {
            0
        } else {
            self.sleep.asleep
        };
        match p1.thread_branch(c1, t.seed()) {
            Err(f) => Err(f),
            Ok((p2, chosen, covered)) => match chosen {
                None => if t.all_done() {
                    Ok(
                        Scheduled {
                            after: ExecModel {
                                path: p2,
                                threads: ThreadsModel { active: None, ..t },
                                sleep: SleepSet { asleep },
                                ..self
                            },
                            claims: c1,
                            switch: true,
                        },
                    )
                } else {
                    Err(Fault::Deadlock)
                },
                Some(next) => if next >= t.threads.len() {
                    Err(Fault::Nondeterministic)
                } else {
                    match self.chosen(p2, t, asleep, p1.pos, next, covered) {
                        Err(f) => Err(f),
                        Ok(e) => Ok(
                            Scheduled { after: e, claims: c1, switch: self.threads.me() != next },
                        ),
                    }
                },
            },
        }
    }

    // ----- threads -----
    /// The execution with one more thread, that has seen what its parent has.
    pub open spec fn spawned(self) -> ExecModel {
        let parent = self.threads.current();
        let id = self.threads.threads.len() as int;
        let child = Thread {
            causality: VersionVec::zero().joined(parent.causality).bumped(id),
            dpor_vv: VersionVec::zero().joined(parent.dpor_vv),
            ..Thread::fresh()
        };
        let t = self.threads.ticked();
        ExecModel { threads: ThreadsModel { threads: t.threads.push(child), ..t }, ..self }
    }

    // ----- iterations -----
    /// The execution at the start of a run on the path `p`.
    pub open spec fn restarted(self, p: PathModel) -> ExecModel {
        ExecModel {
            path: p,
            threads: ThreadsModel {
                threads: seq![Thread::fresh()],
                active: Some(0),
                seq_cst_causality: VersionVec::zero(),
                sc_clock: 0,
            },
            statics: StaticsModel { live: true, ..self.statics },
            objects: Seq::empty(),
            deferred: no_entries(),
            materialized: no_entries(),
            published: Seq::empty(),
            dpor_update: None,
            sleep: SleepSet { asleep: 0 },
            ..self
        }
    }
}

impl Execution {
    /// Create a new execution.
    ///
    /// This is only called at the start of a run. The same instance is reused
    /// across permutations.
    pub fn new(
        id: usize,
        max_threads: usize,
        max_branches: usize,
        preemption_bound: Option<usize>,
        exploring: bool,
    ) -> (r: Execution)
        requires
            max_threads <= MAX_THREADS,
            preemption_bound matches Some(bound) ==> bound <= u8::MAX,
        ensures
            r.id == id,
            r@.path == (PathModel {
                preemption_bound: match preemption_bound {
                    Some(bound) => Some(bound as u8),
                    None => None,
                },
                pos: 0,
                branches: Seq::empty(),
                capacity: max_branches as int,
                exploring,
                skipping: false,
                exploring_on_start: exploring,
                frozen: Seq::empty(),
                split_depth: 0,
            }),
            r@ == (ExecModel {
                sleep_sets: false,
                pruned: 0,
                max_threads: max_threads as int,
                statics: StaticsModel { entries: Map::empty(), live: true },
                ..r@.restarted(r@.path)
            }),
            forall|c: Seq<Frozen>| claims_wf(c) ==> #[trigger] r@.running(c),
    {
        let bound: Option<u8> = match preemption_bound {
            Some(bound) => Some(bound as u8),
            None => None,
        };
        let r = Execution {
            id,
            path: Path::new(max_branches, bound, exploring),
            threads: Threads::new(),
            lazy_statics: Statics::new(),
            objects: Vec::new(),
            spares: Vec::new(),
            deferred_atomics: table_new(),
            materialized: table_new(),
            published_regions: Vec::new(),
            dpor_update: None,
            sleep: SleepSet::default(),
            sleep_sets: false,
            pruned: 0,
            reuse_objects: true,
            max_threads,
        };
        assert(r@.objects =~= Seq::<ObjectModel>::empty());
        assert(r@.published =~= Seq::<PublishedRegion>::empty());
        assert(r@.threads.threads[0] == Thread::fresh());
        r
    }

    /// Create state to track a new thread
    pub fn new_thread(&mut self, claims: &Claims) -> (r: Result<usize, Fault>)
        requires
            old(self)@.running(claims@),
        ensures
            ({
                let e = old(self)@;
                let id = e.threads.threads.len();
                if id >= e.max_threads {
                    r == Err::<usize, Fault>(Fault::TooManyThreads)
                } else if !e.threads.can_tick() || e.threads.current().causality.at(id as int)
                    == u16::MAX {
                    r == Err::<usize, Fault>(Fault::Exhausted)
                } else {
                    &&& r == Ok::<usize, Fault>(id as usize)
                    &&& final(self)@ == e.spawned()
                    &&& final(self)@.running(claims@)
                }
            }),
    {
        let id: usize = self.threads.len();
        if id >= self.max_threads {
            return Err(Fault::TooManyThreads);
        }
        let parent: Thread = self.threads.current();
        if self.threads.active_atomic_version() == u16::MAX || parent.causality.lane(id)
            == u16::MAX {
            return Err(Fault::Exhausted);
        }
        let mut child: Thread = Thread::new();
        child.causality.join(&parent.causality);
        child.dpor_vv.join(&parent.dpor_vv);
        // Bump causality in order to ensure that a first action without
        // synchronization is detected.
        proof {
            VersionVec::lemma_joined_at(VersionVec::zero(), parent.causality, id as int);
            VersionVec::lemma_zero_at(id as int);
        }
        child.causality.inc(id);
        self.threads.active_causality_inc();
        self.threads.push(child);
        assert(self@ =~= old(self)@.spawned());
        Ok(id)
    }

    /// Check one thread's pending operation for races: every dependent access
    /// that is concurrent with it is one that must be explored both ways.
    fn race_with(
        &mut self,
        claims: &mut Claims,
        accesses: &Vec<Access>,
        vv: &VersionVec,
        thread: usize,
    )
        requires
            old(self)@.path.inv(old(claims)@),
        ensures
            (final(self)@.path, final(claims)@) == raced_with(
                old(self)@.path,
                old(claims)@,
                accesses@,
                *vv,
                thread as int,
                0,
            ),
            final(self)@ == (ExecModel { path: final(self)@.path, ..old(self)@ }),
            final(self)@.path.inv(final(claims)@),
            claims_evolve(old(claims)@, final(claims)@),
    {
        let mut k: usize = 0;
        while k < accesses.len()
            invariant
                k <= accesses@.len(),
                self@ == (ExecModel { path: self@.path, ..old(self)@ }),
                self@.path.inv(claims@),
                claims_evolve(old(claims)@, claims@),
                raced_with(
                    self@.path,
                    claims@,
                    accesses@,
                    *vv,
                    thread as int,
                    k as int,
                ) == raced_with(
                    old(self)@.path,
                    old(claims)@,
                    accesses@,
                    *vv,
                    thread as int,
                    0,
                ),
            decreases accesses.len() - k,
        {
            let access: Access = accesses[k];
            if !access.happens_before(vv) {
                let ghost before = claims@;
                self.path.backtrack(claims, access.path_id, thread);
                proof {
                    lemma_claims_evolve_trans(old(claims)@, before, claims@);
                }
            }
            k += 1;
        }
    }

    /// Check the pending operations for races.
    fn race(&mut self, claims: &mut Claims)
        requires
            old(self)@.running(old(claims)@),
        ensures
            (final(self)@.path, final(claims)@) == old(self)@.raced_from(
                old(self)@.path,
                old(claims)@,
                0,
            ),
            final(self)@ == (ExecModel { path: final(self)@.path, ..old(self)@ }),
            final(self)@.running(final(claims)@),
            claims_evolve(old(claims)@, final(claims)@),
    {
        let curr: usize = self.threads.active_id();
        let dirty: Option<usize> = self.dpor_update;
        let mut i: usize = 0;
        while i < self.threads.len()
            invariant
                old(self)@.running(old(claims)@),
                curr == old(self)@.threads.me(),
                dirty == old(self)@.dpor_update,
                i <= self@.threads.threads.len(),
                self@ == (ExecModel { path: self@.path, ..old(self)@ }),
                self@.path.inv(claims@),
                claims_evolve(old(claims)@, claims@),
                old(self)@.raced_from(self@.path, claims@, i as int) == old(self)@.raced_from(
                    old(self)@.path,
                    old(claims)@,
                    0,
                ),
            decreases self@.threads.threads.len() - i,
        {
            let th: Thread = self.threads.get(i);
            assert(th == old(self)@.threads.threads[i as int]);
            if let Some(op) = th.operation {
                let relevant: bool = i == curr || match dirty {
                    Some(object) => object == op.object,
                    None => false,
                };
                if relevant {
                    assert(self.objects@[op.object as int]@ == self@.objects[op.object as int]);
                    let accesses: Vec<Access> = self.objects[op.object].dependent_accesses(
                        op.action,
                    );
                    let ghost before = claims@;
                    self.race_with(claims, &accesses, &th.dpor_vv, i);
                    proof {
                        lemma_claims_evolve_trans(old(claims)@, before, claims@);
                    }
                }
            }
            i += 1;
        }
    }

    /// Take the chosen thread: record its operation, and let it run.
    fn take(&mut self, claims: &Claims, path_id: usize, next: usize, covered: u16) -> (r: Result<
        (),
        Fault,
    >)
        requires
            old(self)@.inv(claims@),
            next < old(self)@.threads.threads.len(),
        ensures
            match old(self)@.chosen(
                old(self)@.path,
                old(self)@.threads,
                old(self)@.sleep.asleep,
                path_id as int,
                next as int,
                covered,
            ) {
                Ok(e) => r is Ok && final(self)@ == e && e.running(claims@),
                Err(f) => r == Err::<(), Fault>(f),
            },
    {
        let ghost e0 = self@;
        self.threads.set_active(Some(next));
        if self.sleep_sets {
            if self.sleep.contains(next) && !self.path.is_skipping() {
                self.path.skip_branch();
                if self.pruned < usize::MAX {
                    self.pruned = self.pruned + 1;
                }
            }
            self.sleep.cover(covered);
            let woken: u16 = self.threads.woken_by(next);
            self.sleep.wake(woken);
        }
        let operation: Option<Operation> = self.threads.current().operation;
        match operation {
            Some(op) => {
                assert(op.object < e0.objects.len()) by {
                    assert(e0.threads.threads[next as int].operation == Some(op));
                }
                assert(self.objects@[op.object as int]@ == self@.objects[op.object as int]);
                let accesses: Vec<Access> = self.objects[op.object].dependent_accesses(op.action);
                let mut th: Thread = self.threads.current();
                let mut k: usize = 0;
                let mut vv: VersionVec = th.dpor_vv;
                while k < accesses.len()
                    invariant
                        k <= accesses@.len(),
                        vv == joined_with(th.dpor_vv, accesses@, k as int),
                    decreases accesses.len() - k,
                {
                    vv.join(&accesses[k].dpor_vv);
                    k += 1;
                }
                if vv.lane(next) == u16::MAX {
                    return Err(Fault::Exhausted);
                }
                vv.inc(next);
                th.dpor_vv = vv;
                self.threads.set_current(th);
                let ghost objects = self.objects@;
                self.objects[op.object].set_last_access(op.action, next, path_id, &vv);
                self.dpor_update = Some(op.object);
                proof {
                    assert(self@.objects =~= e0.objects.update(
                        op.object as int,
                        self.objects@[op.object as int]@,
                    ));
                }
            },
            None => {
                self.dpor_update = None;
            },
        }
        self.threads.reactivate(next);
        proof {
            let e = e0.chosen(
                e0.path,
                e0.threads,
                e0.sleep.asleep,
                path_id as int,
                next as int,
                covered,
            )->Ok_0;
            assert(self@ =~= e);
            lemma_names_cells_same(e0.deferred, e0.objects, e.objects);
            lemma_names_cells_same(e0.materialized, e0.objects, e.objects);
            assert forall|i: int| 0 <= i < e.threads.threads.len() implies ((
            #[trigger] e.threads.threads[i]).operation matches Some(op) ==> op.object
                < e.objects.len()) by {
                assert(e.threads.threads[i].operation == e0.threads.threads[i].operation);
            }
        }
        Ok(())
    }

    /// Decide which thread runs next. Returns `true` if a switch is required.
    ///
    /// This is dynamic partial-order reduction with an event-driven backtrack
    /// scan, sleep sets, and a rescue of timed waits where nothing else can
    /// run.
    pub fn schedule(&mut self, claims: &mut Claims) -> (r: Result<bool, Fault>)
        requires
            old(self)@.running(old(claims)@),
        ensures
            match old(self)@.scheduled(old(claims)@) {
                Ok(s) => {
                    &&& r == Ok::<bool, Fault>(s.switch)
                    &&& final(self)@ == s.after
                    &&& final(claims)@ == s.claims
                    &&& s.after.inv(s.claims)
                },
                Err(f) => r == Err::<bool, Fault>(f),
            },
            claims_evolve(old(claims)@, final(claims)@),
            claims_wf(final(claims)@),
    {
        let curr: usize = self.threads.active_id();
        self.race(claims);
        let ghost e1 = self@;
        if self.threads.rescue() {
            self.sleep.wake_all();
        }
        let seed = self.threads.make_seed();
        let path_id: usize = self.path.pos();
        let (chosen, covered) = match self.path.branch_thread(claims, &seed) {
            Ok(choice) => choice,
            Err(f) => {
                return Err(f);
            },
        };
        proof {
            assert forall|i: int| 0 <= i < self@.threads.threads.len() implies ((
            #[trigger] self@.threads.threads[i]).operation matches Some(op) ==> op.object
                < self@.objects.len()) by {
                assert(self@.threads.threads[i].operation == e1.threads.threads[i].operation);
            }
        }
        match chosen {
            None => {
                self.threads.set_active(None);
                if !self.threads.is_all_done() {
                    return Err(Fault::Deadlock);
                }
                assert(self@ =~= old(self)@.scheduled(old(claims)@)->Ok_0.after);
                Ok(true)
            },
            Some(next) => {
                if next >= self.threads.len() {
                    return Err(Fault::Nondeterministic);
                }
                match self.take(claims, path_id, next, covered) {
                    Ok(()) => {
                        assert(self@ =~= old(self)@.scheduled(old(claims)@)->Ok_0.after);
                        Ok(curr != next)
                    },
                    Err(f) => Err(f),
                }
            },
        }
    }

    /// Resets everything but the path for a run on it. The statics of the last
    /// run must have been dropped.
    pub fn reset_iteration(&mut self, id: usize)
        requires
            old(self)@.statics.wf(),
            !old(self)@.statics.live,
        ensures
            final(self).id == id,
            final(self)@ == old(self)@.restarted(old(self)@.path),
            forall|c: Seq<Frozen>|
                old(self)@.path.inv(c) && old(self)@.max_threads <= MAX_THREADS
                    ==> #[trigger] final(self)@.running(c),
    {
        self.id = id;
        self.threads = Threads::new();
        self.lazy_statics.reset();
        // Cells keep their allocations for the next run.
        while self.objects.len() > 0
            invariant
                self@.path == old(self)@.path,
                self@.threads == (ThreadsModel {
                    threads: seq![Thread::fresh()],
                    active: Some(0),
                    seq_cst_causality: VersionVec::zero(),
                    sc_clock: 0,
                }),
                self@.statics == (StaticsModel { live: true, ..old(self)@.statics }),
                self@.sleep_sets == old(self)@.sleep_sets,
                self@.pruned == old(self)@.pruned,
                self@.max_threads == old(self)@.max_threads,
                self.id == id,
            decreases self.objects.len(),
        {
            if let Some(object) = self.objects.pop() {
                if let Object::Atomic(state) = object {
                    if self.reuse_objects {
                        self.spares.push(state);
                    }
                }
            }
        }
        table_clear(&mut self.deferred_atomics);
        table_clear(&mut self.materialized);
        self.published_regions.clear();
        self.dpor_update = None;
        self.sleep.clear();
        assert(self@.objects =~= Seq::<ObjectModel>::empty());
        assert(self@ =~= old(self)@.restarted(old(self)@.path));
    }

    /// Resets the execution state for the next execution run, reporting
    /// whether there is one. The statics of the last run must have been
    /// dropped.
    pub fn step(&mut self, claims: &mut Claims, id: usize) -> (r: bool)
        requires
            old(self)@.inv(old(claims)@),
            !old(self)@.statics.live,
        ensures
            match old(self)@.path.stepped(old(claims)@) {
                Some((p, d)) => {
                    &&& r
                    &&& final(self).id == id
                    &&& final(self)@ == old(self)@.restarted(p)
                    &&& final(claims)@ == d
                    &&& final(self)@.running(d)
                },
                None => !r && final(claims)@ == old(claims)@,
            },
            claims_evolve(old(claims)@, final(claims)@),
            claims_wf(final(claims)@),
    {
        if !self.path.step(claims) {
            return false;
        }
        self.reset_iteration(id);
        true
    }
}

pub proof fn lemma_names_cells_same(
    table: Map<u64, usize>,
    a: Seq<ObjectModel>,
    b: Seq<ObjectModel>,
)
    requires
        names_cells(table, a),
        a.len() <= b.len(),
        forall|i: int| 0 <= i < a.len() && (#[trigger] a[i]) is Atomic ==> b[i] is Atomic,
    ensures
        names_cells(table, b),
{
    assert forall|k: u64| #[trigger] table.contains_key(k) implies table[k] < b.len()
        && b[table[k] as int] is Atomic by {
        assert(a[table[k] as int] is Atomic);
    }
}

} // verus!
