//! The operations of an execution on its atomic cells.
//!
//! An operation takes two steps. [`Execution::begin`] makes the decision which
//! thread runs next; where another thread has to run, the operation waits
//! until its own thread is chosen again. Then the operation itself follows.
//!
//! Both steps cut the cell along the operation's masks: the first so that its
//! access is recorded on exactly the lanes it touches, the second so that it
//! reads and writes whole regions whatever came before it.
use vstd::prelude::*;

use crate::rt::atomic::rmw::ReadHalf;
use crate::rt::atomic::state::{lemma_touched_more, State, StateModel};
use crate::rt::atomic::store::Store;
use crate::rt::bits;
use crate::rt::claims::{claims_evolve, claims_wf, Claims, Frozen};
use crate::rt::execution::{lemma_names_cells_same, ExecModel, Execution, Scheduled};
use crate::rt::fault::Fault;
use crate::rt::object::{Object, ObjectModel};
use crate::rt::order::{acquires, is_seq_cst, Order};
use crate::rt::path::PathModel;
use crate::rt::small::{Indices, Pairs};
use crate::rt::thread::{Action, Operation, Thread, ThreadsModel};

verus! {

impl StateModel {
    /// The cell with the boundaries of an action's masks made boundaries of
    /// regions, so that its access is recorded on exactly the lanes it
    /// touches.
    pub open spec fn prepared(self, action: Action) -> StateModel {
        match action {
            Action::Opaque => self,
            Action::Load { mask } => self.partitioned(mask),
            Action::Store { mask } => self.partitioned(mask),
            Action::Rmw { read, write } => self.partitioned(read).partitioned(write),
        }
    }
}

impl ExecModel {
    /// The execution with the active thread about to perform an operation.
    pub open spec fn announced(self, operation: Option<Operation>) -> ExecModel {
        ExecModel {
            threads: self.threads.with_current(Thread { operation, ..self.threads.current() }),
            ..self
        }
    }

    /// The decision that an operation on `object` begins with.
    pub open spec fn begun(self, c: Seq<Frozen>, object: usize, action: Action) -> Result<
        Scheduled,
        Fault,
    > {
        let outside = match action {
            Action::Rmw { read, write } => write & !read != 0,
            _ => false,
        };
        if outside {
            Err(Fault::WriteOutsideRead)
        } else {
            let e = if self.is_cell(object as int) {
                self.with_cell(object as int, self.cell(object as int).prepared(action))
            } else {
                self
            };
            e.announced(Some(Operation { object, action })).scheduled(c)
        }
    }

    /// The execution with a new cell.
    pub open spec fn with_new_cell(self, cell: StateModel) -> ExecModel {
        ExecModel { objects: self.objects.push(ObjectModel::Atomic(cell)), ..self }
    }

    /// The execution with the cell, the path and the threads replaced.
    pub open spec fn after_op(
        self,
        object: int,
        cell: StateModel,
        path: PathModel,
        threads: ThreadsModel,
    ) -> ExecModel {
        ExecModel { path, threads, ..self.with_cell(object, cell) }
    }

    /// An atomic load of the bits under `mask`. With `coherent`, the
    /// whole-cell-coherent projection of a typed lane load.
    pub open spec fn loaded(self, object: int, mask: u128, order: Order, coherent: bool) -> Result<
        (ExecModel, u128),
        Fault,
    > {
        if !self.threads.can_tick() {
            Err(Fault::Exhausted)
        } else {
            let t = self.threads.ticked();
            match self.cell(object).partitioned(mask).tracked_load(t) {
                Err(f) => Err(f),
                Ok(s1) => match s1.scope_checked(mask, order.joins(), t.me()) {
                    Err(f) => Err(f),
                    Ok(s2) => match s2.composed(
                        self.path,
                        t,
                        s2.covered(mask),
                        0,
                        order,
                        coherent,
                        Seq::empty(),
                        0,
                    ) {
                        Err(f) => Err(f),
                        Ok(c) => Ok(
                            (self.after_op(object, c.cell, c.path, c.threads), c.value),
                        ),
                    },
                },
            }
        }
    }

    /// A counter that a write over `mask` of the cell needs is at its end.
    pub open spec fn spent(self, cell: StateModel, mask: u128, order: Order, rmw: bool) -> bool {
        ||| !self.threads.can_tick()
        ||| cell.worn_out(mask, rmw)
        ||| cell.op_clock == u64::MAX
        ||| order == Order::SeqCst && self.threads.sc_clock == u32::MAX
    }

    /// An atomic store of `value`'s bits under `mask`: one event, even when it
    /// spans regions.
    pub open spec fn stored(self, object: int, mask: u128, value: u128, order: Order) -> Result<
        ExecModel,
        Fault,
    > {
        let cell = self.cell(object).partitioned(mask);
        if self.spent(cell, mask, order, false) {
            Err(Fault::Exhausted)
        } else {
            let t = self.threads.ticked();
            match cell.tracked_store(t) {
                Err(f) => Err(f),
                Ok(s) => {
                    let sc = order == Order::SeqCst;
                    let t1 = if sc {
                        t.sc_advanced()
                    } else {
                        t
                    };
                    let n = s.next_op();
                    let rank = if sc {
                        Some(t.sc_clock)
                    } else {
                        None
                    };
                    Ok(
                        self.after_op(
                            object,
                            n.stored(t1, mask, value, order, rank, n.op_clock),
                            self.path,
                            t1,
                        ),
                    )
                },
            }
        }
    }

    /// The read half of a read-modify-write over `read_mask` that may write the
    /// bits under `write_mask`.
    pub open spec fn rmw_begun(
        self,
        object: int,
        read_mask: u128,
        write_mask: u128,
        success: Order,
        failure: Order,
    ) -> Result<ReadHalf, Fault> {
        let cell = self.cell(object).partitioned(read_mask).partitioned(write_mask);
        if write_mask & !read_mask != 0 {
            Err(Fault::WriteOutsideRead)
        } else if self.spent(cell, read_mask, success, true) {
            Err(Fault::Exhausted)
        } else {
            let t = self.threads.ticked();
            match cell.tracked_load(t) {
                Err(f) => Err(f),
                Ok(s1) => match s1.scope_checked(
                    read_mask,
                    success.joins() || failure.joins(),
                    t.me(),
                ) {
                    Err(f) => Err(f),
                    Ok(s2) => s2.rmw_read(
                        self.path,
                        t,
                        s2.covered(read_mask),
                        0,
                        Seq::empty(),
                        0,
                    ),
                },
            }
        }
    }

    /// The execution after a read-modify-write with read half `half` wrote
    /// `next`.
    pub open spec fn rmw_done(
        self,
        object: int,
        half: ReadHalf,
        next: u128,
        write_mask: u128,
        success: Order,
    ) -> Result<ExecModel, Fault> {
        match half.cell.rmw_stored(
            self.threads.ticked(),
            half.reads,
            half.value,
            next,
            write_mask,
            success,
        ) {
            Err(f) => Err(f),
            Ok(w) => Ok(self.after_op(object, w.cell, half.path, w.threads)),
        }
    }

    /// The execution after a read-modify-write with read half `half` failed.
    pub open spec fn rmw_undone(self, object: int, half: ReadHalf, failure: Order) -> ExecModel {
        self.after_op(
            object,
            half.cell,
            half.path,
            half.cell.rmw_failed(self.threads.ticked(), half.reads, 0, failure),
        )
    }
}

/// A cell replaced by a valid one keeps the execution valid.
pub proof fn lemma_with_cell_inv(
    e: ExecModel,
    c: Seq<Frozen>,
    object: int,
    cell: StateModel,
    path: PathModel,
    threads: ThreadsModel,
)
    requires
        e.inv(c),
        e.is_cell(object),
        cell.wf(),
        path.inv(c),
        threads.wf(),
        threads.threads.len() == e.threads.threads.len(),
        forall|i: int|
            0 <= i < threads.threads.len() ==> (#[trigger] threads.threads[i]).operation
                == e.threads.threads[i].operation,
    ensures
        e.after_op(object, cell, path, threads).inv(c),
{
    let n = e.after_op(object, cell, path, threads);
    lemma_names_cells_same(e.deferred, e.objects, n.objects);
    lemma_names_cells_same(e.materialized, e.objects, n.objects);
    assert forall|i: int| 0 <= i < n.threads.threads.len() implies ((
    #[trigger] n.threads.threads[i]).operation matches Some(op) ==> op.object
        < n.objects.len()) by {
        assert(n.threads.threads[i].operation == e.threads.threads[i].operation);
    }
}

impl State {
    /// Make the boundaries of an action's masks boundaries of regions.
    fn prepare(&mut self, action: Action)
        requires
            old(self)@.wf(),
        ensures
            final(self)@ == old(self)@.prepared(action),
            final(self)@.wf(),
    {
        match action {
            Action::Opaque => {},
            Action::Load { mask } => {
                self.ensure_partition(mask);
            },
            Action::Store { mask } => {
                self.ensure_partition(mask);
            },
            Action::Rmw { read, write } => {
                self.ensure_partition(read);
                self.ensure_partition(write);
            },
        }
    }
}

impl Execution {
    /// Announce an operation of the active thread, and decide which thread
    /// runs next. Returns `true` if a switch is required.
    pub fn begin(&mut self, claims: &mut Claims, object: usize, action: Action) -> (r: Result<
        bool,
        Fault,
    >)
        requires
            old(self)@.running(old(claims)@),
            object < old(self)@.objects.len(),
        ensures
            match old(self)@.begun(old(claims)@, object, action) {
                Ok(s) => {
                    &&& r == Ok::<bool, Fault>(s.switch)
                    &&& final(self)@ == s.after
                    &&& final(claims)@ == s.claims
                    &&& s.after.inv(s.claims)
                },
                Err(f) => r == Err::<bool, Fault>(f),
            },
            action matches Action::Rmw { read, write } ==> (write & !read != 0 ==> final(self)@
                == old(self)@ && final(claims)@ == old(claims)@),
            claims_evolve(old(claims)@, final(claims)@),
            claims_wf(final(claims)@),
    {
        if let Action::Rmw { read, write } = action {
            if write & !read != 0 {
                proof {
                    lemma_claims_evolve_refl(claims@);
                }
                return Err(Fault::WriteOutsideRead);
            }
        }
        let ghost e0 = self@;
        assert(self.objects@[object as int]@ == self@.objects[object as int]);
        if let Object::Atomic(state) = &mut self.objects[object] {
            state.prepare(action);
        }
        let ghost e1 = if e0.is_cell(object as int) {
            e0.with_cell(object as int, e0.cell(object as int).prepared(action))
        } else {
            e0
        };
        proof {
            assert(self@.objects =~= e1.objects);
            if e0.is_cell(object as int) {
                lemma_with_cell_inv(
                    e0,
                    claims@,
                    object as int,
                    e1.cell(object as int),
                    e0.path,
                    e0.threads,
                );
            }
            assert(self@ =~= e1);
        }
        let mut th: Thread = self.threads.current();
        th.operation = Some(Operation { object, action });
        self.threads.set_current(th);
        proof {
            assert(self@ =~= e1.announced(Some(Operation { object, action })));
        }
        self.schedule(claims)
    }

    /// Atomically load the bits under `mask` (other bits are zero). A full
    /// load composes every region; the value selection is one branch of the
    /// path per region. With `coherent` the load can never travel behind a
    /// whole-cell operation that the thread has already observed through a
    /// region outside it.
    pub fn load(
        &mut self,
        claims: &Claims,
        object: usize,
        mask: u128,
        order: Order,
        coherent: bool,
    ) -> (r: Result<u128, Fault>)
        requires
            old(self)@.running(claims@),
            old(self)@.is_cell(object as int),
        ensures
            match old(self)@.loaded(object as int, mask, order, coherent) {
                Ok((e, value)) => {
                    &&& r == Ok::<u128, Fault>(value)
                    &&& final(self)@ == e
                    &&& e.running(claims@)
                },
                Err(f) => r == Err::<u128, Fault>(f),
            },
    {
        let ghost e0 = self@;
        if self.threads.active_atomic_version() == u16::MAX {
            return Err(Fault::Exhausted);
        }
        self.threads.active_causality_inc();
        let me: usize = self.threads.active_id();
        let ghost t = self.threads@;
        assert(self.objects@[object as int]@ == e0.objects[object as int]);
        assert(e0.objects[object as int].wf());
        if let Object::Atomic(state) = &mut self.objects[object] {
            state.ensure_partition(mask);
            let ghost s0 = state@;
            match state.track_load(&self.threads) {
                Ok(()) => {},
                Err(f) => {
                    return Err(f);
                },
            }
            proof {
                broadcast use bits::group_bits;

                lemma_touched_more(s0, state@);
                assert(bits::holds(state@.touched_by, me as int));
            }
            match state.check_preserved_scope(mask, acquires(order), me) {
                Ok(()) => {},
                Err(f) => {
                    return Err(f);
                },
            }
            let covered: Indices = state.covered(mask);
            let result = state.compose_load(
                &mut self.path,
                claims,
                &mut self.threads,
                &covered,
                order,
                coherent,
            );
            match result {
                Ok(value) => {
                    proof {
                        lemma_composed_threads(
                            s0.tracked_load(t)->Ok_0.scope_checked(
                                mask,
                                order.joins(),
                                t.me(),
                            )->Ok_0,
                            e0.path,
                            t,
                            covered@,
                            0,
                            order,
                            coherent,
                            Seq::empty(),
                            0,
                        );
                    }
                    proof {
                        let e = e0.loaded(object as int, mask, order, coherent)->Ok_0.0;
                        lemma_with_cell_inv(
                            e0,
                            claims@,
                            object as int,
                            e.cell(object as int),
                            e.path,
                            e.threads,
                        );
                        assert(self@.objects =~= e.objects);
                        assert(self@ =~= e);
                    }
                    Ok(value)
                },
                Err(f) => Err(f),
            }
        } else {
            Err(Fault::Corrupted)
        }
    }
}

proof fn lemma_claims_evolve_refl(c: Seq<Frozen>)
    ensures
        claims_evolve(c, c),
{
}

/// A load changes what the active thread has seen and nothing else of the
/// threads.
pub proof fn lemma_composed_threads(
    s: StateModel,
    path: PathModel,
    t: ThreadsModel,
    covered: Seq<usize>,
    k: int,
    order: Order,
    floor: bool,
    resolved: Seq<(u64, bool)>,
    value: u128,
)
    requires
        t.running(),
    ensures
        s.composed(path, t, covered, k, order, floor, resolved, value) matches Ok(c) ==> {
            &&& c.threads.active == t.active
            &&& c.threads.threads.len() == t.threads.len()
            &&& forall|i: int|
                0 <= i < t.threads.len() ==> (#[trigger] c.threads.threads[i]).operation
                    == t.threads[i].operation && c.threads.threads[i].state == t.threads[i].state && (i
                    != t.me() ==> c.threads.threads[i] == t.threads[i])
        },
    decreases covered.len() - k,
{
    if k < covered.len() {
        let pushed = if path.traversed() {
            match s.offered(t, covered, k, order, floor, resolved) {
                Ok(seed) => path.with_load(seed),
                Err(f) => Err(f),
            }
        } else {
            Ok(path)
        };
        if let Ok(p1) = pushed {
            if let Ok((p2, index)) = p1.load_branch() {
                let ri = covered[k] as int;
                let r = s.regions[ri];
                let fixed = if covered.len() > 1 {
                    r.resolve(index, resolved)
                } else {
                    Some(resolved)
                };
                if index < r.stores.len() && fixed is Some {
                    lemma_composed_threads(
                        s.with_region(ri, r.read(t, index)),
                        p2,
                        t.synced(r.stores[index].sync.happens_before, order),
                        covered,
                        k + 1,
                        order,
                        floor,
                        fixed->Some_0,
                        value | (r.stores[index].value & r.mask),
                    );
                }
            }
        }
    }
}

impl Execution {
    /// Atomically store `value`'s bits under `mask`, leaving the rest of the
    /// cell untouched. A full store writes every region as one event.
    pub fn store(&mut self, claims: &Claims, object: usize, mask: u128, value: u128, order: Order) -> (r:
        Result<(), Fault>)
        requires
            old(self)@.running(claims@),
            old(self)@.is_cell(object as int),
        ensures
            match old(self)@.stored(object as int, mask, value, order) {
                Ok(e) => {
                    &&& r is Ok
                    &&& final(self)@ == e
                    &&& e.running(claims@)
                },
                Err(f) => r == Err::<(), Fault>(f),
            },
    {
        let ghost e0 = self@;
        if self.threads.active_atomic_version() == u16::MAX {
            return Err(Fault::Exhausted);
        }
        let sc: bool = is_seq_cst(order);
        if sc && !self.threads.has_sc_pos() {
            return Err(Fault::Exhausted);
        }
        assert(self.objects@[object as int]@ == e0.objects[object as int]);
        assert(e0.objects[object as int].wf());
        if let Object::Atomic(state) = &mut self.objects[object] {
            state.ensure_partition(mask);
            let ghost s0 = state@;
            if state.is_worn_out(mask, false) || state.op_clock == u64::MAX {
                return Err(Fault::Exhausted);
            }
            self.threads.active_causality_inc();
            let ghost t = self.threads@;
            let me: usize = self.threads.active_id();
            // An atomic store counts as a read access to the underlying
            // memory cell (cell-wide).
            match state.track_store(&self.threads) {
                Ok(()) => {},
                Err(f) => {
                    return Err(f);
                },
            }
            proof {
                broadcast use bits::group_bits;

                lemma_touched_more(s0, state@);
                assert(bits::holds(state@.touched_by, me as int));
            }
            let sc_rank: Option<u32> = if sc {
                Some(self.threads.next_sc_pos())
            } else {
                None
            };
            state.op_clock = state.op_clock + 1;
            let op_id: u64 = state.op_clock;
            proof {
                assert(state@.regions == s0.regions);
                assert(!state@.worn_out(mask, false)) by {
                    assert(!s0.worn_out(mask, false));
                }
            }
            state.store_regions(&self.threads, mask, value, order, sc_rank, op_id);
            proof {
                let e = e0.stored(object as int, mask, value, order)->Ok_0;
                lemma_with_cell_inv(
                    e0,
                    claims@,
                    object as int,
                    e.cell(object as int),
                    e.path,
                    e.threads,
                );
            }
        }
        proof {
            let e = e0.stored(object as int, mask, value, order)->Ok_0;
            assert(self@.objects =~= e.objects);
            assert(self@ =~= e);
        }
        Ok(())
    }

    /// Read-modify-write over the bits under `read_mask`, of which only those
    /// also under `write_mask` may change.
    ///
    /// `f` receives the composed current value and returns the new one, or an
    /// error, which makes the operation a load. All regions are read and
    /// written as one linearization point.
    ///
    /// The two masks differ for a **preserving** operation: a wide
    /// compare-and-swap that consults bits it writes back verbatim. On those
    /// the operation appends no store; that they come back identical is
    /// checked, not trusted. A write outside what was read is refused, and
    /// changes nothing.
    pub fn rmw_preserving<F, E>(
        &mut self,
        claims: &Claims,
        object: usize,
        read_mask: u128,
        write_mask: u128,
        success: Order,
        failure: Order,
        f: F,
    ) -> (r: Result<Result<u128, E>, Fault>) where F: FnOnce(u128) -> Result<u128, E>
        requires
            old(self)@.running(claims@),
            old(self)@.is_cell(object as int),
            forall|x: u128| #[trigger] f.requires((x,)),
        ensures
            match old(self)@.rmw_begun(object as int, read_mask, write_mask, success, failure) {
                Err(g) => r matches Err(h) && g == h,
                Ok(half) => exists|out: Result<u128, E>|
                    {
                        &&& #[trigger] f.ensures((half.value,), out)
                        &&& match out {
                            Ok(next) => match old(self)@.rmw_done(
                                object as int,
                                half,
                                next,
                                write_mask,
                                success,
                            ) {
                                Err(g) => r matches Err(h) && g == h,
                                Ok(e) => {
                                    &&& r == Ok::<Result<u128, E>, Fault>(Ok(half.value))
                                    &&& final(self)@ == e
                                    &&& e.running(claims@)
                                },
                            },
                            Err(x) => {
                                &&& r == Ok::<Result<u128, E>, Fault>(Err(x))
                                &&& final(self)@ == old(self)@.rmw_undone(
                                    object as int,
                                    half,
                                    failure,
                                )
                                &&& final(self)@.running(claims@)
                            },
                        }
                    },
            },
            write_mask & !read_mask != 0 ==> final(self)@ == old(self)@,
    {
        let ghost e0 = self@;
        if write_mask & !read_mask != 0 {
            return Err(Fault::WriteOutsideRead);
        }
        if self.threads.active_atomic_version() == u16::MAX {
            return Err(Fault::Exhausted);
        }
        if is_seq_cst(success) && !self.threads.has_sc_pos() {
            return Err(Fault::Exhausted);
        }
        assert(self.objects@[object as int]@ == e0.objects[object as int]);
        assert(e0.objects[object as int].wf());
        let mut out: Result<u128, E> = Ok(0);
        let ghost mut half: ReadHalf = arbitrary();
        let ghost mut said: Result<u128, E> = arbitrary();
        if let Object::Atomic(state) = &mut self.objects[object] {
            state.ensure_partition(read_mask);
            state.ensure_partition(write_mask);
            let ghost s0 = state@;
            if state.is_worn_out(read_mask, true) || state.op_clock == u64::MAX {
                return Err(Fault::Exhausted);
            }
            self.threads.active_causality_inc();
            let me: usize = self.threads.active_id();
            let ghost t = self.threads@;
            match state.track_load(&self.threads) {
                Ok(()) => {},
                Err(f) => {
                    return Err(f);
                },
            }
            proof {
                broadcast use bits::group_bits;

                lemma_touched_more(s0, state@);
                assert(bits::holds(state@.touched_by, me as int));
            }
            // Either arm's ordering may acquire, and which one runs is not
            // known until `f` has been applied.
            match state.check_preserved_scope(read_mask, acquires(success) || acquires(failure), me) {
                Ok(()) => {},
                Err(f) => {
                    return Err(f);
                },
            }
            let covered: Indices = state.covered(read_mask);
            proof {
                assert forall|i: int| 0 <= i < covered@.len() implies (#[trigger] covered@[i])
                    < state@.regions.len() && state@.regions[covered@[i] as int].cnt < u16::MAX
                    && state@.regions[covered@[i] as int].preserved_cnt < u16::MAX by {
                    let ri = covered@[i] as int;
                    assert(state@.regions[ri].mask == s0.regions[ri].mask);
                    assert(state@.regions[ri].cnt == s0.regions[ri].cnt);
                    assert(state@.regions[ri].preserved_cnt == s0.regions[ri].preserved_cnt);
                    assert(!s0.worn_out(read_mask, true));
                }
            }
            let (reads, current): (Pairs, u128) = match state.rmw_begin(
                &mut self.path,
                claims,
                &self.threads,
                &covered,
            ) {
                Ok(both) => both,
                Err(f) => {
                    return Err(f);
                },
            };
            proof {
                half =
                e0.rmw_begun(object as int, read_mask, write_mask, success, failure)->Ok_0;
            }
            let answer: Result<u128, E> = f(current);
            proof {
                said = answer;
            }
            match answer {
                Ok(next) => {
                    match state.rmw_finish(
                        &mut self.threads,
                        &reads,
                        current,
                        next,
                        write_mask,
                        success,
                    ) {
                        Ok(()) => {},
                        Err(g) => {
                            proof {
                                let o: Result<u128, E> = Ok(next);
                                assert(f.ensures((half.value,), o));
                            }
                            return Err(g);
                        },
                    }
                    proof {
                        let o: Result<u128, E> = Ok(next);
                        assert(f.ensures((half.value,), o));
                        let e = e0.rmw_done(object as int, half, next, write_mask, success)->Ok_0;
                        let s = half.cell.tracked_store(t)->Ok_0.next_op();
                        let sc = success == Order::SeqCst;
                        lemma_written_threads(
                            s,
                            if sc {
                                t.sc_advanced()
                            } else {
                                t
                            },
                            half.reads,
                            0,
                            half.value,
                            next,
                            write_mask,
                            success,
                            if sc {
                                Some(t.sc_clock)
                            } else {
                                None
                            },
                            s.op_clock,
                        );
                        lemma_with_cell_inv(
                            e0,
                            claims@,
                            object as int,
                            e.cell(object as int),
                            e.path,
                            e.threads,
                        );
                    }
                    out = Ok(current);
                },
                Err(x) => {
                    state.rmw_abort(&mut self.threads, &reads, failure);
                    proof {
                        let e = e0.rmw_undone(object as int, half, failure);
                        lemma_failed_threads(half.cell, t, half.reads, 0, failure);
                        lemma_with_cell_inv(
                            e0,
                            claims@,
                            object as int,
                            e.cell(object as int),
                            e.path,
                            e.threads,
                        );
                        assert(f.ensures((half.value,), Err(x)));
                    }
                    out = Err(x);
                },
            }
        }
        proof {
            assert(f.ensures((half.value,), said));
            let e = match said {
                Ok(next) => e0.rmw_done(object as int, half, next, write_mask, success)->Ok_0,
                Err(_) => e0.rmw_undone(object as int, half, failure),
            };
            assert(self@.objects =~= e.objects);
            assert(self@ =~= e);
        }
        Ok(out)
    }
}

/// The write half changes what the active thread has seen and nothing else of
/// the threads.
pub proof fn lemma_written_threads(
    s: StateModel,
    t: ThreadsModel,
    reads: Seq<(usize, usize)>,
    j: int,
    current: u128,
    next: u128,
    write_mask: u128,
    success: Order,
    sc_rank: Option<u32>,
    op_id: u64,
)
    requires
        t.running(),
    ensures
        s.rmw_write(t, reads, j, current, next, write_mask, success, sc_rank, op_id) matches Ok(w)
            ==> {
            &&& w.threads.active == t.active
            &&& w.threads.threads.len() == t.threads.len()
            &&& forall|i: int|
                0 <= i < t.threads.len() ==> (#[trigger] w.threads.threads[i]).operation
                    == t.threads[i].operation && w.threads.threads[i].state == t.threads[i].state && (i
                    != t.me() ==> w.threads.threads[i] == t.threads[i])
        },
    decreases reads.len() - j,
{
    if j < reads.len() {
        let ri = reads[j].0 as int;
        let index = reads[j].1 as int;
        let r = s.regions[ri];
        let t1 = t.synced(r.stores[index].sync.happens_before, success);
        if r.mask & write_mask != 0 {
            lemma_written_threads(
                s.with_region(ri, r.rmw_committed(t1, index, next, success, sc_rank, op_id)),
                t1,
                reads,
                j + 1,
                current,
                next,
                write_mask,
                success,
                sc_rank,
                op_id,
            );
        } else {
            let checked = s.with_region(
                ri,
                r.preserving(t1, index, op_id, write_mask),
            ).prior_reads_checked(ri, write_mask, t.me());
            if checked is Ok {
                lemma_written_threads(
                    checked->Ok_0,
                    t1,
                    reads,
                    j + 1,
                    current,
                    next,
                    write_mask,
                    success,
                    sc_rank,
                    op_id,
                );
            }
        }
    }
}

pub proof fn lemma_failed_threads(
    s: StateModel,
    t: ThreadsModel,
    reads: Seq<(usize, usize)>,
    j: int,
    failure: Order,
)
    requires
        t.running(),
    ensures
        ({
            let n = s.rmw_failed(t, reads, j, failure);
            &&& n.active == t.active
            &&& n.threads.len() == t.threads.len()
            &&& forall|i: int|
                0 <= i < t.threads.len() ==> (#[trigger] n.threads[i]).operation
                    == t.threads[i].operation && n.threads[i].state == t.threads[i].state && (i
                    != t.me() ==> n.threads[i] == t.threads[i])
        }),
    decreases reads.len() - j,
{
    if j < reads.len() {
        let r = s.regions[reads[j].0 as int];
        lemma_failed_threads(
            s,
            t.synced(r.stores[reads[j].1 as int].sync.happens_before, failure),
            reads,
            j + 1,
            failure,
        );
    }
}

} // verus!
