//! Atomic fences.
use vstd::prelude::*;

use crate::rt::atomic::region::{Region, RegionModel};
use crate::rt::atomic::state::{State, StateModel};
use crate::rt::atomic::store::Store;
use crate::rt::bits;
use crate::rt::claims::Claims;
use crate::rt::execution::{lemma_names_cells_same, ExecModel, Execution};
use crate::rt::fault::Fault;
use crate::rt::object::{Object, ObjectModel};
use crate::rt::order::Order;
use crate::rt::thread::{Threads, ThreadsModel};
use crate::rt::MAX_THREADS;

verus! {

/// The threads after the active one acquired from those of the first `n`
/// stores that it has itself read or created.
pub open spec fn drew_from_stores(t: ThreadsModel, stores: Seq<Store>, n: int) -> ThreadsModel
    decreases n,
{
    if n <= 0 {
        t
    } else {
        let before = drew_from_stores(t, stores, n - 1);
        if stores[n - 1].first_seen.touched_by(t.me()) {
            before.learned(stores[n - 1].sync.happens_before)
        } else {
            before
        }
    }
}

/// The same over the first `n` regions of a cell.
pub open spec fn drew_from_regions(
    t: ThreadsModel,
    regions: Seq<RegionModel>,
    n: int,
) -> ThreadsModel
    decreases n,
{
    if n <= 0 {
        t
    } else {
        drew_from_stores(
            drew_from_regions(t, regions, n - 1),
            regions[n - 1].stores,
            regions[n - 1].stores.len() as int,
        )
    }
}

/// The same over the first `n` objects. "Read by the active thread" is
/// literal: a store that is merely in the thread's causality because some
/// other thread's relaxed read of it happened before does not qualify.
pub open spec fn drew_from_objects(
    t: ThreadsModel,
    objects: Seq<ObjectModel>,
    n: int,
) -> Result<ThreadsModel, Fault>
    decreases n,
{
    if n <= 0 {
        Ok(t)
    } else {
        match drew_from_objects(t, objects, n - 1) {
            Err(f) => Err(f),
            Ok(before) => match objects[n - 1] {
                ObjectModel::Atomic(s) if bits::holds(s.touched_by, t.me()) => if s.holds_unrouted(
                    t.me(),
                ) {
                    Err(Fault::PreservedFence)
                } else {
                    Ok(drew_from_regions(before, s.regions, s.regions.len() as int))
                },
                _ => Ok(before),
            },
        }
    }
}

/// The objects with the stores of thread `me` ranked at `pos`, in the cells
/// that it has touched.
pub open spec fn ranked(objects: Seq<ObjectModel>, me: int, pos: u32) -> Seq<ObjectModel> {
    objects.map_values(
        |o: ObjectModel|
            match o {
                ObjectModel::Atomic(s) if bits::holds(s.touched_by, me) => ObjectModel::Atomic(
                    s.promoted(me, pos),
                ),
                other => other,
            },
    )
}

impl ExecModel {
    /// An acquire fence.
    pub open spec fn acquire_fenced(self) -> Result<ExecModel, Fault> {
        match drew_from_objects(self.threads, self.objects, self.objects.len() as int) {
            Err(f) => Err(f),
            Ok(threads) => Ok(ExecModel { threads, ..self }),
        }
    }

    /// A release fence.
    pub open spec fn release_fenced(self) -> ExecModel {
        ExecModel { threads: self.threads.release_fenced(), ..self }
    }

    /// A sequentially consistent fence, after it acquired and released: it
    /// meets the other such fences, takes the next position, and promotes
    /// every store of its thread to that position.
    pub open spec fn sc_fenced(self) -> ExecModel {
        let t = self.threads.met_fences();
        ExecModel {
            threads: t.sc_fenced(),
            objects: ranked(self.objects, t.me(), t.sc_clock),
            ..self
        }
    }

    /// A fence of the active thread.
    pub open spec fn fenced(self, order: Order) -> Result<ExecModel, Fault> {
        if !self.threads.can_tick() || (order == Order::SeqCst && self.threads.sc_clock
            == u32::MAX) {
            Err(Fault::Exhausted)
        } else {
            let e = ExecModel { threads: self.threads.ticked(), ..self };
            match order {
                Order::Relaxed => Err(Fault::RelaxedFence),
                Order::Acquire => e.acquire_fenced(),
                Order::Release => Ok(e.release_fenced()),
                Order::AcqRel => match e.acquire_fenced() {
                    Err(f) => Err(f),
                    Ok(n) => Ok(n.release_fenced()),
                },
                Order::SeqCst => match e.acquire_fenced() {
                    Err(f) => Err(f),
                    Ok(n) => Ok(n.release_fenced().sc_fenced()),
                },
            }
        }
    }
}

/// Only what the active thread has seen differs.
pub open spec fn only_learned(t: ThreadsModel, n: ThreadsModel) -> bool {
    &&& n.active == t.active
    &&& n.sc_clock == t.sc_clock
    &&& n.seq_cst_causality == t.seq_cst_causality
    &&& n.threads.len() == t.threads.len()
    &&& forall|i: int|
        0 <= i < t.threads.len() ==> (#[trigger] n.threads[i]).operation == t.threads[i].operation
            && n.threads[i].state == t.threads[i].state
}

proof fn lemma_drew_from_stores(t: ThreadsModel, stores: Seq<Store>, n: int)
    requires
        t.running(),
    ensures
        only_learned(t, drew_from_stores(t, stores, n)),
    decreases n,
{
    if n > 0 {
        lemma_drew_from_stores(t, stores, n - 1);
    }
}

proof fn lemma_drew_from_regions(t: ThreadsModel, regions: Seq<RegionModel>, n: int)
    requires
        t.running(),
    ensures
        only_learned(t, drew_from_regions(t, regions, n)),
    decreases n,
{
    if n > 0 {
        lemma_drew_from_regions(t, regions, n - 1);
        let before = drew_from_regions(t, regions, n - 1);
        lemma_drew_from_stores(
            before,
            regions[n - 1].stores,
            regions[n - 1].stores.len() as int,
        );
    }
}

pub proof fn lemma_drew_from_objects(t: ThreadsModel, objects: Seq<ObjectModel>, n: int)
    requires
        t.running(),
    ensures
        drew_from_objects(t, objects, n) matches Ok(r) ==> only_learned(t, r),
    decreases n,
{
    if n > 0 {
        lemma_drew_from_objects(t, objects, n - 1);
        if let Ok(before) = drew_from_objects(t, objects, n - 1) {
            if let ObjectModel::Atomic(s) = objects[n - 1] {
                lemma_drew_from_regions(before, s.regions, s.regions.len() as int);
            }
        }
    }
}

proof fn lemma_drew_from_objects_fails(t: ThreadsModel, objects: Seq<ObjectModel>, n: int, m: int)
    requires
        0 <= n <= m,
        drew_from_objects(t, objects, n) is Err,
    ensures
        drew_from_objects(t, objects, m) == drew_from_objects(t, objects, n),
    decreases m - n,
{
    if n < m {
        lemma_drew_from_objects_fails(t, objects, n, m - 1);
    }
}

proof fn lemma_untouched_stores(t: ThreadsModel, stores: Seq<Store>, n: int)
    requires
        0 <= n <= stores.len(),
        forall|k: int|
            0 <= k < stores.len() ==> !(#[trigger] stores[k]).first_seen.touched_by(t.me()),
    ensures
        drew_from_stores(t, stores, n) == t,
    decreases n,
{
    if n > 0 {
        lemma_untouched_stores(t, stores, n - 1);
    }
}

/// A fence that skips a cell which its thread has not touched loses nothing:
/// there is no store in it to acquire from.
pub proof fn untouched_cells_have_nothing_to_acquire(t: ThreadsModel, s: StateModel, n: int)
    requires
        s.wf(),
        t.running(),
        !bits::holds(s.touched_by, t.me()),
        0 <= n <= s.regions.len(),
    ensures
        drew_from_regions(t, s.regions, n) == t,
    decreases n,
{
    if n > 0 {
        untouched_cells_have_nothing_to_acquire(t, s, n - 1);
        let stores = s.regions[n - 1].stores;
        assert forall|k: int| 0 <= k < stores.len() implies !(
        #[trigger] stores[k]).first_seen.touched_by(t.me()) by {
            assert(s.regions[n - 1].stores[k].first_seen.at(t.me()) == stores[k].first_seen.at(
                t.me(),
            ));
        }
        lemma_untouched_stores(t, stores, stores.len() as int);
    }
}

impl Region {
    /// The active thread acquires from the stores that it has touched.
    fn draw(&self, threads: &mut Threads)
        requires
            old(threads)@.running(),
        ensures
            final(threads)@ == drew_from_stores(
                old(threads)@,
                self@.stores,
                self@.stores.len() as int,
            ),
            final(threads)@.running(),
    {
        let me: usize = threads.active_id();
        let mut i: usize = 0;
        while i < self.stores.len()
            invariant
                me == old(threads)@.me(),
                me < MAX_THREADS,
                i <= self@.stores.len(),
                threads@.running(),
                threads@ == drew_from_stores(old(threads)@, self@.stores, i as int),
            decreases self.stores.len() - i,
        {
            let store: Store = self.stores[i];
            if store.first_seen.is_touched_by(me) {
                threads.learn(&store.sync.happens_before);
            }
            i += 1;
        }
    }
}

impl State {
    /// The active thread acquires from the stores that it has touched.
    fn draw(&self, threads: &mut Threads)
        requires
            old(threads)@.running(),
        ensures
            final(threads)@ == drew_from_regions(
                old(threads)@,
                self@.regions,
                self@.regions.len() as int,
            ),
            final(threads)@.running(),
    {
        let mut i: usize = 0;
        while i < self.regions.len()
            invariant
                i <= self@.regions.len(),
                threads@.running(),
                threads@ == drew_from_regions(old(threads)@, self@.regions, i as int),
            decreases self.regions.len() - i,
        {
            assert(self.regions@[i as int]@ == self@.regions[i as int]);
            self.regions[i].draw(threads);
            i += 1;
        }
    }
}

impl Execution {
    fn fence_acq(&mut self, claims: &Claims) -> (r: Result<(), Fault>)
        requires
            old(self)@.running(claims@),
        ensures
            match old(self)@.acquire_fenced() {
                Ok(e) => {
                    &&& r is Ok
                    &&& final(self)@ == e
                    &&& e.running(claims@)
                    &&& only_learned(old(self)@.threads, e.threads)
                },
                Err(f) => r == Err::<(), Fault>(f),
            },
    {
        let ghost e0 = self@;
        let me: usize = self.threads.active_id();
        let mut i: usize = 0;
        while i < self.objects.len()
            invariant
                e0 == old(self)@,
                e0.running(claims@),
                me == e0.threads.me(),
                me < MAX_THREADS,
                i <= self@.objects.len(),
                self@ == (ExecModel { threads: self@.threads, ..e0 }),
                self@.threads.running(),
                only_learned(e0.threads, self@.threads),
                drew_from_objects(e0.threads, e0.objects, i as int) == Ok::<
                    ThreadsModel,
                    Fault,
                >(self@.threads),
            decreases self.objects.len() - i,
        {
            assert(self.objects@[i as int]@ == self@.objects[i as int]);
            proof {
                lemma_drew_from_objects(e0.threads, e0.objects, i as int + 1);
            }
            if let Object::Atomic(state) = &self.objects[i] {
                // No store in an untouched cell was ever touched by the
                // active thread: skip the scan.
                if bits::test(state.touched_by, me) {
                    if state.has_unrouted_reader(me) {
                        proof {
                            lemma_drew_from_objects_fails(
                                e0.threads,
                                e0.objects,
                                i as int + 1,
                                e0.objects.len() as int,
                            );
                        }
                        return Err(Fault::PreservedFence);
                    }
                    state.draw(&mut self.threads);
                }
            }
            i += 1;
        }
        proof {
            assert forall|k: int| 0 <= k < self@.threads.threads.len() implies ((
            #[trigger] self@.threads.threads[k]).operation matches Some(op) ==> op.object
                < self@.objects.len()) by {
                assert(self@.threads.threads[k].operation == e0.threads.threads[k].operation);
            }
        }
        Ok(())
    }

    fn fence_rel(&mut self, claims: &Claims)
        requires
            old(self)@.running(claims@),
        ensures
            final(self)@ == old(self)@.release_fenced(),
            final(self)@.running(claims@),
    {
        self.threads.release_fence();
        assert(self@ =~= old(self)@.release_fenced());
        proof {
            assert forall|k: int| 0 <= k < self@.threads.threads.len() implies ((
            #[trigger] self@.threads.threads[k]).operation matches Some(op) ==> op.object
                < self@.objects.len()) by {
                assert(self@.threads.threads[k].operation == old(
                    self,
                )@.threads.threads[k].operation);
            }
        }
    }

    fn fence_acqrel(&mut self, claims: &Claims) -> (r: Result<(), Fault>)
        requires
            old(self)@.running(claims@),
        ensures
            match old(self)@.acquire_fenced() {
                Ok(e) => {
                    &&& r is Ok
                    &&& final(self)@ == e.release_fenced()
                    &&& final(self)@.running(claims@)
                    &&& final(self)@.threads.sc_clock == old(self)@.threads.sc_clock
                },
                Err(f) => r == Err::<(), Fault>(f),
            },
    {
        match self.fence_acq(claims) {
            Ok(()) => {},
            Err(f) => {
                return Err(f);
            },
        }
        self.fence_rel(claims);
        Ok(())
    }

    /// Rank the stores of the active thread, in the cells that it has touched.
    fn rank_writes(&mut self, claims: &Claims, pos: u32)
        requires
            old(self)@.running(claims@),
        ensures
            final(self)@ == (ExecModel {
                objects: ranked(old(self)@.objects, old(self)@.threads.me(), pos),
                ..old(self)@
            }),
            final(self)@.running(claims@),
    {
        let ghost e0 = self@;
        let me: usize = self.threads.active_id();
        let ghost want = ranked(e0.objects, me as int, pos);
        let mut i: usize = 0;
        while i < self.objects.len()
            invariant
                e0.running(claims@),
                me == e0.threads.me(),
                me < MAX_THREADS,
                want == ranked(e0.objects, me as int, pos),
                i <= self@.objects.len() == e0.objects.len(),
                self@ == (ExecModel { objects: self@.objects, ..e0 }),
                forall|k: int|
                    0 <= k < i ==> #[trigger] self@.objects[k] == want[k] && want[k].wf(),
                forall|k: int|
                    i <= k < self@.objects.len() ==> #[trigger] self@.objects[k] == e0.objects[k],
            decreases self.objects.len() - i,
        {
            assert(self.objects@[i as int]@ == self@.objects[i as int]);
            assert(self@.objects[i as int] == e0.objects[i as int]);
            assert(e0.objects[i as int].wf());
            let ghost before = self@.objects;
            if let Object::Atomic(state) = &mut self.objects[i] {
                if bits::test(state.touched_by, me) {
                    state.promote_sc_writes(me, pos);
                }
            }
            proof {
                assert(self.objects@[i as int]@ == want[i as int]);
                assert(self@.objects =~= before.update(i as int, want[i as int]));
            }
            i += 1;
        }
        proof {
            assert(self@.objects =~= want);
            assert forall|k: int| 0 <= k < want.len() implies (#[trigger] want[k]).wf() by {
                assert(self@.objects[k] == want[k]);
            }
            lemma_names_cells_same(e0.deferred, e0.objects, want);
            lemma_names_cells_same(e0.materialized, e0.objects, want);
        }
    }

    fn fence_seqcst(&mut self, claims: &Claims) -> (r: Result<(), Fault>)
        requires
            old(self)@.running(claims@),
            old(self)@.threads.sc_clock < u32::MAX,
        ensures
            match old(self)@.acquire_fenced() {
                Ok(e) => {
                    &&& r is Ok
                    &&& final(self)@ == e.release_fenced().sc_fenced()
                    &&& final(self)@.running(claims@)
                },
                Err(f) => r == Err::<(), Fault>(f),
            },
    {
        match self.fence_acqrel(claims) {
            Ok(()) => {},
            Err(f) => {
                return Err(f);
            },
        }
        let ghost e1 = self@;
        self.threads.seq_cst_fence();
        // The fence joins the single total order of sequentially consistent
        // operations, and promotes every store of this thread into it.
        let pos: u32 = self.threads.begin_sc_fence();
        proof {
            assert forall|k: int| 0 <= k < self@.threads.threads.len() implies ((
            #[trigger] self@.threads.threads[k]).operation matches Some(op) ==> op.object
                < self@.objects.len()) by {
                assert(self@.threads.threads[k].operation == e1.threads.threads[k].operation);
            }
        }
        self.rank_writes(claims, pos);
        assert(self@ =~= e1.sc_fenced());
        Ok(())
    }

    /// Implements atomic fence behavior
    pub fn fence(&mut self, claims: &Claims, order: Order) -> (r: Result<(), Fault>)
        requires
            old(self)@.running(claims@),
        ensures
            match old(self)@.fenced(order) {
                Ok(e) => {
                    &&& r is Ok
                    &&& final(self)@ == e
                    &&& e.running(claims@)
                },
                Err(f) => r == Err::<(), Fault>(f),
            },
    {
        if self.threads.active_atomic_version() == u16::MAX {
            return Err(Fault::Exhausted);
        }
        let sc: bool = match order {
            Order::SeqCst => true,
            _ => false,
        };
        if sc && !self.threads.has_sc_pos() {
            return Err(Fault::Exhausted);
        }
        self.threads.active_causality_inc();
        proof {
            assert(self@ =~= ExecModel { threads: old(self)@.threads.ticked(), ..old(self)@ });
            assert forall|k: int| 0 <= k < self@.threads.threads.len() implies ((
            #[trigger] self@.threads.threads[k]).operation matches Some(op) ==> op.object
                < self@.objects.len()) by {
                assert(self@.threads.threads[k].operation == old(
                    self,
                )@.threads.threads[k].operation);
            }
        }
        match order {
            Order::Relaxed => Err(Fault::RelaxedFence),
            Order::Acquire => self.fence_acq(claims),
            Order::Release => {
                self.fence_rel(claims);
                Ok(())
            },
            Order::AcqRel => self.fence_acqrel(claims),
            Order::SeqCst => self.fence_seqcst(claims),
        }
    }
}

} // verus!
