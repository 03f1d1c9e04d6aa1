//! Models that run on coroutines, one per thread of the model.
#![allow(deprecated)]

use std::collections::{BTreeSet, HashSet, VecDeque};
use std::marker::PhantomData;
use std::ops::{Deref, DerefMut};
use std::sync::atomic::AtomicUsize as Counter;
use std::sync::{Arc, Mutex, MutexGuard};

use generator::{Generator, Gn};
use loom::model::pool::{Pool, Taken};
use loom::model::settings::Settings;
use loom::model::{Builder, Stats, Step, Walk};
use loom::rt::atomic::action::FULL_MASK;
use loom::rt::cells::{mint_id, CellIds};
use loom::rt::claims::Claims;
use loom::rt::execution::Execution;
use loom::rt::fault::{Fault, Race};
use loom::rt::lazy_static::{StaticKeyId, StaticValue};
use loom::rt::order::Order;
use loom::rt::order::Order::{AcqRel, Acquire, Relaxed, Release, SeqCst};
use loom::rt::thread::Action;
use loom::rt::wait::{Event, Wait};
use loom::sync::atomic::cell::Cell;
use loom::sync::atomic::lane::{Lane, LaneInt, LaneU32Of128, LaneU32Of64, LaneU64Of128};
use loom::sync::atomic::num::Numeric;
use loom::sync::atomic::update::{FetchUpdate, Turn};
use loom::sync::atomic::Atomic;
use loom::sync::condvar::{Condvar, WaitTimeoutResult};

// ----- the runtime -----

struct World {
    execution: Execution,
    claims: Claims,
}

struct Shared {
    world: Mutex<Option<World>>,
    queue: Mutex<VecDeque<Box<dyn FnOnce() + Send>>>,
    ids: Mutex<CellIds>,
}

/// The model that a test runs in.
#[derive(Clone)]
struct Cx(Arc<Shared>);

type Test = dyn Fn(&Cx) + Send + Sync;

fn message(fault: Fault) -> String {
    match fault {
        Fault::Causality { race, .. } => {
            let pair = match race {
                Race::LoadMut | Race::MutLoad => "load and mut accesses",
                Race::UnsyncLoadMut | Race::MutUnsyncLoad => "unsync load and mut accesses",
                Race::UnsyncLoadStore | Race::StoreUnsyncLoad => "unsync load and store accesses",
                Race::StoreMut | Race::MutStore => "store and mut accesses",
                Race::MutMut => "mut accesses",
            };
            format!("Causality violation: Concurrent {pair}.")
        }
        Fault::NotPublished { addr } => {
            format!("materialized atomic at {addr:#x} is not in any published region")
        }
        Fault::PreservedChanged => String::from("the preserved lane is not preserved"),
        Fault::PreservedAcquire => String::from("acquiring read of a preserved lane"),
        Fault::PreservedAcquired => String::from("another thread has already acquire-read it"),
        Fault::PreservedFence => {
            String::from("acquire fence over a cell read only through a preserved lane")
        }
        Fault::Deadlock => String::from("deadlock"),
        other => format!("{other:?}"),
    }
}

fn demand<R>(r: Result<R, Fault>) -> R {
    match r {
        Ok(v) => v,
        Err(fault) => panic!("{}", message(fault)),
    }
}

fn switch() {
    generator::yield_with(());
}

impl Cx {
    fn new() -> Cx {
        Cx(Arc::new(Shared {
            world: Mutex::new(None),
            queue: Mutex::new(VecDeque::new()),
            ids: Mutex::new(CellIds::new()),
        }))
    }

    fn with<R>(&self, f: impl FnOnce(&mut World) -> R) -> R {
        f(self.0.world.lock().unwrap().as_mut().unwrap())
    }

    fn begin(&self, object: usize, action: Action) {
        let required = self.with(|w| demand(w.execution.begin(&mut w.claims, object, action)));
        if required {
            switch();
        }
    }

    fn spawn<R: Send + 'static>(&self, f: impl FnOnce(&Cx) -> R + Send + 'static) -> Handle<R> {
        let (id, mutex) = self.with(|w| {
            let id = demand(w.execution.new_thread(&w.claims));
            (id, w.execution.new_mutex(&w.claims, Some(id)))
        });
        assert!(id > 0);
        let result = Arc::new(Mutex::new(None));
        let slot = result.clone();
        let cx = self.clone();
        self.0.queue.lock().unwrap().push_back(Box::new(move || {
            let r = f(&cx);
            *slot.lock().unwrap() = Some(r);
            cx.with(|w| w.execution.unlock(&w.claims, mutex));
        }));
        Handle { cx: self.clone(), mutex, result }
    }

    fn lock(&self, mutex: usize) {
        let required = self.with(|w| demand(w.execution.begin_lock(&mut w.claims, mutex)));
        if required {
            switch();
        }
        self.with(|w| demand(w.execution.lock(&w.claims, mutex)));
    }

    fn unlock(&self, mutex: usize) {
        self.with(|w| w.execution.unlock(&w.claims, mutex));
    }

    fn mutex(&self) -> usize {
        self.with(|w| w.execution.new_mutex(&w.claims, None))
    }

    fn fence(&self, order: Order) {
        self.with(|w| demand(w.execution.fence(&w.claims, order)));
    }

    fn yield_now(&self) {
        let required = self.with(|w| demand(w.execution.yield_now(&mut w.claims)));
        if required {
            switch();
        }
    }

    fn coroutine(&self, f: Box<dyn FnOnce() + Send>) -> Generator<'static, (), ()> {
        let cx = self.clone();
        Gn::<()>::new_opt(0x10000, move || {
            f();
            cx.with(|w| demand(w.execution.thread_done(&mut w.claims)));
        })
    }

    fn active(&self) -> Option<usize> {
        self.with(|w| w.execution.threads.active())
    }

    fn run_once(&self, f: &Arc<Test>) {
        let main = f.clone();
        let cx = self.clone();
        let mut threads = vec![self.coroutine(Box::new(move || {
            main(&cx);
            cx.with(|w| w.execution.lazy_statics.drop());
        }))];
        while let Some(active) = self.active() {
            threads[active].resume();
            loop {
                let next = self.0.queue.lock().unwrap().pop_front();
                match next {
                    Some(f) => threads.push(self.coroutine(f)),
                    None => break,
                }
            }
        }
        assert!(threads.iter().all(|t| t.is_done()));
    }

    fn word<T: Numeric>(&self, value: T) -> Word<T> {
        let object = self.with(|w| Atomic::new(&mut w.execution, &w.claims, value).object);
        self.at(Cell::Registered { object })
    }

    /// A cell that was built before any execution.
    fn deferred<T: Numeric>(&self, init: T) -> Word<T> {
        let mut id = 0;
        mint_id(&mut id, &mut self.0.ids.lock().unwrap());
        self.at(Cell::Deferred { id, init: init.into_u128() })
    }

    fn publish(&self, base: u64, len: u64) {
        self.with(|w| w.execution.publish(&w.claims, base, len));
    }

    /// A cell in published memory.
    fn placed<T: Numeric>(&self, addr: u64) -> Word<T> {
        self.at(Cell::Materialized { addr })
    }

    fn zero_exclusive(&self, base: u64, len: u64) {
        self.with(|w| demand(w.execution.zero_exclusive(&w.claims, base, len)));
    }

    fn reset(&self, base: u64, len: u64) {
        for object in self.with(|w| w.execution.cells_in(&w.claims, base, len).to_vec()) {
            self.begin(object, Action::Store { mask: FULL_MASK });
            self.with(|w| demand(w.execution.reset(&w.claims, object)));
        }
    }

    fn at<T: Numeric>(&self, cell: Cell) -> Word<T> {
        Word { cx: self.clone(), cell, kind: PhantomData }
    }
}

struct Handle<R> {
    cx: Cx,
    mutex: usize,
    result: Arc<Mutex<Option<R>>>,
}

impl<R> Handle<R> {
    fn join(self) -> R {
        self.cx.lock(self.mutex);
        self.cx.unlock(self.mutex);
        let r = self.result.lock().unwrap().take();
        r.unwrap()
    }
}

fn unset() -> Settings {
    Settings {
        checkpoint_interval: None,
        max_branches: None,
        location: None,
        log: None,
        max_duration: None,
        max_permutations: None,
        preemption_bound: None,
        checkpoint_file: None,
        threads: None,
        split_depth: None,
        probe: None,
        reuse_objects: None,
        sleep_sets: None,
    }
}

fn default_builder() -> Builder {
    match Builder::new(&unset(), 1) {
        Ok(b) => b,
        Err(e) => panic!("{e:?}"),
    }
}

fn check_with(cx: &Cx, builder: &Builder, f: impl Fn(&Cx) + Send + Sync + 'static) -> Stats {
    let f: Arc<Test> = Arc::new(f);
    let mut walk = Walk::new();
    *cx.0.world.lock().unwrap() =
        Some(World { execution: builder.new_execution(0), claims: Claims::new() });
    loop {
        let decision = walk.decide(builder, 0, false);
        if decision.step == Step::Finish {
            return walk.stats(cx.with(|w| w.execution.pruned));
        }
        cx.run_once(&f);
        walk = walk.ran(builder, cx.with(|w| w.execution.path.conservative_attributed()));
        let more = cx.with(|w| {
            let id = w.execution.id + 1;
            w.execution.step(&mut w.claims, id)
        });
        if !more {
            return walk.stats(cx.with(|w| w.execution.pruned));
        }
    }
}

/// A walk by several workers, which take turns.
fn check_sharded(
    cx: &Cx,
    builder: &Builder,
    every: usize,
    f: impl Fn(&Cx) + Send + Sync + 'static,
) -> Stats {
    let f: Arc<Test> = Arc::new(f);
    let workers = builder.workers();
    let mut seed = builder.new_execution(0).path;
    seed.set_split_depth(builder.split_depth);
    let mut pool: Pool<()> = Pool::new(seed);
    let mut claims = Some(Claims::new());
    let mut parked: Vec<Option<Execution>> = Vec::new();
    for _ in 0..workers {
        let mut execution = builder.new_execution(0);
        execution.lazy_statics.drop();
        parked.push(Some(execution));
    }
    let mut busy = vec![false; workers];
    let mut idle = vec![false; workers];
    let mut over = vec![false; workers];
    let mut executions = 0;
    let mut conservative = 0;
    while !over.iter().all(|o| *o) {
        for i in 0..workers {
            if over[i] {
                continue;
            }
            if !busy[i] {
                if idle[i] {
                    pool.woken();
                    idle[i] = false;
                }
                match pool.take(workers) {
                    Taken::Task(path) => {
                        let execution = parked[i].as_mut().unwrap();
                        execution.path = path;
                        execution.reset_iteration(executions);
                        busy[i] = true;
                    }
                    Taken::Over => {
                        over[i] = true;
                        continue;
                    }
                    Taken::Wait => {
                        idle[i] = true;
                        continue;
                    }
                }
            }
            let execution = parked[i].take().unwrap();
            *cx.0.world.lock().unwrap() =
                Some(World { execution, claims: claims.take().unwrap() });
            cx.run_once(&f);
            let mut world = cx.0.world.lock().unwrap().take().unwrap();
            executions += 1;
            if builder.stats && world.execution.path.conservative_attributed() {
                conservative += 1;
            }
            if builder.limit_reached(executions, 0) {
                pool.stop();
            }
            busy[i] = world.execution.step(&mut world.claims, executions);
            if busy[i] && executions % every == 0 {
                let wanted = pool.wanted();
                if wanted > 0 {
                    let tasks = world.execution.path.split_off(&mut world.claims, wanted);
                    pool.post(tasks);
                }
            }
            parked[i] = Some(world.execution);
            claims = Some(world.claims);
        }
    }
    let pruned = parked.iter().map(|e| e.as_ref().unwrap().pruned).sum();
    let mut stats = Stats::default();
    stats.executions = executions;
    stats.threads = workers;
    stats.pruned = pruned;
    stats.conservative = conservative;
    stats
}

fn check(builder: &Builder, f: impl Fn(&Cx) + Send + Sync + 'static) -> Stats {
    check_with(&Cx::new(), builder, f)
}

fn model(f: impl Fn(&Cx) + Send + Sync + 'static) -> Stats {
    check(&default_builder(), f)
}

// ----- atomics -----

struct Word<T> {
    cx: Cx,
    cell: Cell,
    kind: PhantomData<T>,
}

impl<T> Clone for Word<T> {
    fn clone(&self) -> Word<T> {
        Word { cx: self.cx.clone(), cell: self.cell, kind: PhantomData }
    }
}

fn rmw_action(read: u128, write: u128) -> Action {
    Action::Rmw { read, write }
}

impl<T: Numeric> Word<T> {
    fn resolve(&self) -> usize {
        self.cx.with(|w| demand(self.cell.resolve(&mut w.execution, &w.claims)))
    }

    fn enter(&self, action: Action) -> Atomic<T> {
        let object = self.resolve();
        self.cx.begin(object, action);
        self.cx.with(|w| demand(self.cell.confirm(&mut w.execution, &w.claims, object)));
        Atomic::at(object)
    }

    fn step<R>(
        &self,
        action: Action,
        f: impl FnOnce(Atomic<T>, &mut Execution, &Claims) -> Result<R, Fault>,
    ) -> R {
        let atomic = self.enter(action);
        self.cx.with(|w| demand(f(atomic, &mut w.execution, &w.claims)))
    }

    fn load(&self, order: Order) -> T {
        self.step(Action::Load { mask: FULL_MASK }, |a, e, c| a.load(e, c, order))
    }

    fn load_masked(&self, mask: T, order: Order) -> T {
        self.step(Action::Load { mask: mask.into_u128() }, |a, e, c| {
            a.load_masked(e, c, mask, order)
        })
    }

    fn load_coherent_lane(&self, mask: T, order: Order) -> T {
        self.step(Action::Load { mask: mask.into_u128() }, |a, e, c| {
            a.load_coherent_lane(e, c, mask, order)
        })
    }

    fn store(&self, val: T, order: Order) {
        self.step(Action::Store { mask: FULL_MASK }, |a, e, c| a.store(e, c, val, order))
    }

    fn store_masked(&self, mask: T, val: T, order: Order) {
        self.step(Action::Store { mask: mask.into_u128() }, |a, e, c| {
            a.store_masked(e, c, mask, val, order)
        })
    }

    fn rmw<R>(
        &self,
        f: impl FnOnce(Atomic<T>, &mut Execution, &Claims) -> Result<R, Fault>,
    ) -> R {
        self.step(rmw_action(FULL_MASK, FULL_MASK), f)
    }

    fn swap(&self, val: T, order: Order) -> T {
        self.rmw(|a, e, c| a.swap(e, c, val, order))
    }

    fn fetch_add(&self, val: T, order: Order) -> T {
        self.rmw(|a, e, c| a.fetch_add(e, c, val, order))
    }

    fn fetch_sub(&self, val: T, order: Order) -> T {
        self.rmw(|a, e, c| a.fetch_sub(e, c, val, order))
    }

    fn fetch_and(&self, val: T, order: Order) -> T {
        self.rmw(|a, e, c| a.fetch_and(e, c, val, order))
    }

    fn fetch_nand(&self, val: T, order: Order) -> T {
        self.rmw(|a, e, c| a.fetch_nand(e, c, val, order))
    }

    fn fetch_or(&self, val: T, order: Order) -> T {
        self.rmw(|a, e, c| a.fetch_or(e, c, val, order))
    }

    fn fetch_xor(&self, val: T, order: Order) -> T {
        self.rmw(|a, e, c| a.fetch_xor(e, c, val, order))
    }

    fn fetch_max(&self, val: T, order: Order) -> T {
        self.rmw(|a, e, c| a.fetch_max(e, c, val, order))
    }

    fn fetch_min(&self, val: T, order: Order) -> T {
        self.rmw(|a, e, c| a.fetch_min(e, c, val, order))
    }

    fn compare_and_swap(&self, current: T, new: T, order: Order) -> T {
        self.rmw(|a, e, c| a.compare_and_swap(e, c, current, new, order))
    }

    fn compare_exchange(
        &self,
        current: T,
        new: T,
        success: Order,
        failure: Order,
    ) -> Result<T, T> {
        self.rmw(|a, e, c| a.compare_exchange(e, c, current, new, success, failure))
    }

    fn compare_exchange_weak(
        &self,
        current: T,
        new: T,
        success: Order,
        failure: Order,
    ) -> Result<T, T> {
        self.rmw(|a, e, c| a.compare_exchange_weak(e, c, current, new, success, failure))
    }

    fn compare_exchange_masked(
        &self,
        mask: T,
        current: T,
        new: T,
        success: Order,
        failure: Order,
    ) -> Result<T, T> {
        let bits = mask.into_u128();
        self.step(rmw_action(bits, bits), |a, e, c| {
            a.compare_exchange_masked(e, c, mask, current, new, success, failure)
        })
    }

    fn compare_exchange_preserving(
        &self,
        keep: T,
        current: T,
        new: T,
        success: Order,
        failure: Order,
    ) -> Result<T, T> {
        self.step(rmw_action(FULL_MASK, !keep.into_u128()), |a, e, c| {
            a.compare_exchange_preserving(e, c, keep, current, new, success, failure)
        })
    }

    fn fetch_modify(&self, mask: T, f: impl FnOnce(T) -> T, order: Order) -> T {
        let bits = mask.into_u128();
        self.step(rmw_action(bits, bits), |a, e, c| a.fetch_modify(e, c, mask, f, order))
    }

    fn fetch_modify_preserving(&self, write: T, f: impl FnOnce(T) -> T, order: Order) -> T {
        self.step(rmw_action(FULL_MASK, write.into_u128()), |a, e, c| {
            a.fetch_modify_preserving(e, c, write, f, order)
        })
    }

    fn fetch_update(
        &self,
        set_order: Order,
        fetch_order: Order,
        f: impl Fn(T) -> Option<T>,
    ) -> Result<T, T> {
        let mut update = FetchUpdate::new(Atomic::at(self.resolve()), set_order, fetch_order);
        loop {
            match update.turn {
                Turn::Finished { result } => return result,
                Turn::Ask { prev } => {
                    update.answer(f(prev));
                    continue;
                }
                Turn::Load => {
                    self.enter(Action::Load { mask: FULL_MASK });
                }
                Turn::Exchange { .. } => {
                    self.enter(rmw_action(FULL_MASK, FULL_MASK));
                }
            }
            self.cx.with(|w| demand(update.advance(&mut w.execution, &w.claims)));
        }
    }

    fn unsync_load(&self) -> T {
        let atomic = Atomic::<T>::at(self.resolve());
        self.cx.with(|w| demand(atomic.unsync_load(&mut w.execution, &w.claims)))
    }

    fn into_inner(self) -> T {
        let atomic = Atomic::<T>::at(self.resolve());
        self.cx.with(|w| demand(atomic.into_inner(&mut w.execution, &w.claims)))
    }

    fn with_mut<R>(&self, f: impl FnOnce(&mut T) -> R) -> R {
        let atomic = Atomic::<T>::at(self.resolve());
        let mut value =
            self.cx.with(|w| demand(atomic.begin_mut(&mut w.execution, &w.claims)));
        let r = f(&mut value);
        self.cx.with(|w| demand(atomic.end_mut(&mut w.execution, &w.claims, value, false)));
        r
    }
}

/// A lane of a word.
struct LaneOf<L, const CELL: usize> {
    cx: Cx,
    cell: Cell,
    byte_offset: usize,
    kind: PhantomData<L>,
}

impl Word<u128> {
    fn lane_u32(&self, byte_offset: usize) -> LaneOf<u32, 16> {
        assert!(LaneU32Of128::is_aligned(byte_offset), "misaligned or out-of-bounds lane");
        LaneOf { cx: self.cx.clone(), cell: self.cell, byte_offset, kind: PhantomData }
    }

    fn lane_u64(&self, byte_offset: usize) -> LaneOf<u64, 16> {
        assert!(LaneU64Of128::is_aligned(byte_offset), "misaligned or out-of-bounds lane");
        LaneOf { cx: self.cx.clone(), cell: self.cell, byte_offset, kind: PhantomData }
    }
}

impl Word<u64> {
    fn lane_u32(&self, byte_offset: usize) -> LaneOf<u32, 8> {
        assert!(LaneU32Of64::is_aligned(byte_offset), "misaligned or out-of-bounds lane");
        LaneOf { cx: self.cx.clone(), cell: self.cell, byte_offset, kind: PhantomData }
    }
}

impl<L: LaneInt, const CELL: usize> LaneOf<L, CELL> {
    fn step<R>(
        &self,
        action: impl Fn(u128) -> Action,
        f: impl FnOnce(Lane<L, CELL>, &mut Execution, &Claims) -> Result<R, Fault>,
    ) -> R {
        let object =
            self.cx.with(|w| demand(self.cell.resolve(&mut w.execution, &w.claims)));
        let lane = Lane::<L, CELL>::new(object, self.byte_offset);
        self.cx.begin(object, action(lane.mask()));
        self.cx.with(|w| demand(f(lane, &mut w.execution, &w.claims)))
    }

    fn rmw<R>(
        &self,
        f: impl FnOnce(Lane<L, CELL>, &mut Execution, &Claims) -> Result<R, Fault>,
    ) -> R {
        self.step(|mask| rmw_action(mask, mask), f)
    }

    fn load(&self, order: Order) -> L {
        self.step(|mask| Action::Load { mask }, |l, e, c| l.load(e, c, order))
    }

    fn store(&self, val: L, order: Order) {
        self.step(|mask| Action::Store { mask }, |l, e, c| l.store(e, c, val, order))
    }

    fn swap(&self, val: L, order: Order) -> L {
        self.rmw(|l, e, c| l.swap(e, c, val, order))
    }

    fn fetch_add(&self, val: L, order: Order) -> L {
        self.rmw(|l, e, c| l.fetch_add(e, c, val, order))
    }

    fn fetch_sub(&self, val: L, order: Order) -> L {
        self.rmw(|l, e, c| l.fetch_sub(e, c, val, order))
    }

    fn fetch_and(&self, val: L, order: Order) -> L {
        self.rmw(|l, e, c| l.fetch_and(e, c, val, order))
    }

    fn fetch_nand(&self, val: L, order: Order) -> L {
        self.rmw(|l, e, c| l.fetch_nand(e, c, val, order))
    }

    fn fetch_or(&self, val: L, order: Order) -> L {
        self.rmw(|l, e, c| l.fetch_or(e, c, val, order))
    }

    fn fetch_xor(&self, val: L, order: Order) -> L {
        self.rmw(|l, e, c| l.fetch_xor(e, c, val, order))
    }

    fn fetch_max(&self, val: L, order: Order) -> L {
        self.rmw(|l, e, c| l.fetch_max(e, c, val, order))
    }

    fn fetch_min(&self, val: L, order: Order) -> L {
        self.rmw(|l, e, c| l.fetch_min(e, c, val, order))
    }

    fn compare_exchange(
        &self,
        current: L,
        new: L,
        success: Order,
        failure: Order,
    ) -> Result<L, L> {
        self.rmw(|l, e, c| l.compare_exchange(e, c, current, new, success, failure))
    }

    fn compare_exchange_weak(
        &self,
        current: L,
        new: L,
        success: Order,
        failure: Order,
    ) -> Result<L, L> {
        self.rmw(|l, e, c| l.compare_exchange_weak(e, c, current, new, success, failure))
    }
}


// ----- locks -----

struct Lock<T> {
    cx: Cx,
    mutex: usize,
    value: Arc<Mutex<T>>,
}

impl<T> Clone for Lock<T> {
    fn clone(&self) -> Lock<T> {
        Lock { cx: self.cx.clone(), mutex: self.mutex, value: self.value.clone() }
    }
}

struct Guard<'a, T> {
    lock: &'a Lock<T>,
    inner: Option<MutexGuard<'a, T>>,
}

impl<T> Lock<T> {
    fn new(cx: &Cx, value: T) -> Lock<T> {
        Lock { cx: cx.clone(), mutex: cx.mutex(), value: Arc::new(Mutex::new(value)) }
    }

    fn lock(&self) -> Guard<'_, T> {
        self.cx.lock(self.mutex);
        Guard { lock: self, inner: Some(self.value.lock().unwrap()) }
    }
}

impl<T> Deref for Guard<'_, T> {
    type Target = T;

    fn deref(&self) -> &T {
        self.inner.as_ref().unwrap()
    }
}

impl<T> DerefMut for Guard<'_, T> {
    fn deref_mut(&mut self) -> &mut T {
        self.inner.as_mut().unwrap()
    }
}

impl<T> Drop for Guard<'_, T> {
    fn drop(&mut self) {
        self.inner = None;
        if let Ok(mut world) = self.lock.cx.0.world.lock() {
            let w = world.as_mut().unwrap();
            w.execution.unlock(&w.claims, self.lock.mutex);
        }
    }
}

#[derive(Clone)]
struct Cv {
    cx: Cx,
    condvar: Condvar,
}

impl Cv {
    fn new(cx: &Cx) -> Cv {
        Cv { cx: cx.clone(), condvar: cx.with(|w| Condvar::new(&mut w.execution, &w.claims)) }
    }

    fn run<'a, T>(&self, mut guard: Guard<'a, T>, mut wait: Wait) -> (Guard<'a, T>, bool) {
        guard.inner = None;
        loop {
            let event = self.cx.with(|w| demand(wait.advance(&mut w.execution, &mut w.claims)));
            match event {
                Event::Pending { switch: true } => switch(),
                Event::Pending { switch: false } => {}
                Event::Finished { timed_out } => {
                    guard.inner = Some(guard.lock.value.lock().unwrap());
                    return (guard, timed_out);
                }
            }
        }
    }

    fn wait<'a, T>(&self, guard: Guard<'a, T>) -> Guard<'a, T> {
        let wait = self.condvar.wait(guard.lock.mutex);
        self.run(guard, wait).0
    }

    fn wait_timeout<'a, T>(&self, guard: Guard<'a, T>) -> (Guard<'a, T>, WaitTimeoutResult) {
        let wait = self.condvar.wait_timeout(guard.lock.mutex);
        let (guard, timed_out) = self.run(guard, wait);
        (guard, WaitTimeoutResult(timed_out))
    }

    fn notify_one(&self) {
        self.cx.begin(self.condvar.object, Action::Opaque);
        self.cx.with(|w| self.condvar.notify_one(&mut w.execution, &w.claims));
    }

    fn notify_all(&self) {
        self.cx.begin(self.condvar.object, Action::Opaque);
        self.cx.with(|w| self.condvar.notify_all(&mut w.execution, &w.claims));
    }
}

// ----- lanes -----

/// A futex word: a queue in the bits 0..64, an owner in 64..96 and a value in
/// 96..128.
const VALUE_OFF: usize = 12;
const OWNER_OFF: usize = 8;
const HIGH_OFF: usize = 8;
const S_OFF: usize = 0;

#[test]
fn lane_offsets_address_disjoint_bits() {
    model(|cx| {
        let x = cx.word(0u128);
        x.lane_u32(0).store(0x1111_1111, Relaxed);
        x.lane_u32(4).store(0x2222_2222, Relaxed);
        x.lane_u32(8).store(0x3333_3333, Relaxed);
        x.lane_u32(12).store(0x4444_4444, Relaxed);
        assert_eq!(x.load(Relaxed), 0x4444_4444_3333_3333_2222_2222_1111_1111u128);
        // The 64-bit views compose the same bytes.
        assert_eq!(x.lane_u64(0).load(Relaxed), 0x2222_2222_1111_1111);
        assert_eq!(x.lane_u64(8).load(Relaxed), 0x4444_4444_3333_3333);
    });
}

#[test]
fn lane_rmw_algebra_and_isolation() {
    model(|cx| {
        let x = cx.word(0u128);
        x.lane_u64(S_OFF).store(u64::MAX, Relaxed); // queue bits all-set
        let v = x.lane_u32(VALUE_OFF);

        assert_eq!(v.fetch_add(5, SeqCst), 0);
        assert_eq!(v.fetch_sub(1, SeqCst), 5);
        assert_eq!(v.fetch_or(0xF0, SeqCst), 4);
        assert_eq!(v.fetch_and(0x1F, SeqCst), 0xF4);
        assert_eq!(v.fetch_xor(0x1, SeqCst), 0x14);
        assert_eq!(v.swap(u32::MAX, SeqCst), 0x15);
        // Wrap stays inside the lane: no carry into the owner lane.
        assert_eq!(v.fetch_add(1, SeqCst), u32::MAX);
        assert_eq!(v.load(Relaxed), 0);
        assert_eq!(v.fetch_max(7, SeqCst), 0);
        assert_eq!(v.fetch_min(3, SeqCst), 7);
        assert_eq!(v.fetch_nand(0xFF, SeqCst), 3);
        assert_eq!(v.load(Relaxed), !3u32);

        assert_eq!(x.lane_u64(S_OFF).load(Relaxed), u64::MAX, "sibling disturbed");
        assert_eq!(x.lane_u32(OWNER_OFF).load(Relaxed), 0, "owner disturbed");
    });
}

#[test]
fn lane_cas_semantics() {
    model(|cx| {
        let x = cx.word(0u128);
        x.lane_u64(S_OFF).store(0xDEAD, Relaxed);

        let v = x.lane_u32(VALUE_OFF);
        assert_eq!(v.compare_exchange(0, 7, SeqCst, Relaxed), Ok(0));
        assert_eq!(v.compare_exchange(0, 9, SeqCst, Relaxed), Err(7));
        assert_eq!(v.compare_exchange_weak(7, 8, SeqCst, Relaxed), Ok(7));
        assert_eq!(x.lane_u64(S_OFF).load(Relaxed), 0xDEAD, "sibling disturbed");
    });
}

#[test]
fn concurrent_disjoint_lane_rmws_both_land() {
    model(|cx| {
        let x = cx.word(0u128);

        let t = {
            let x = x.clone();
            cx.spawn(move |_| {
                x.lane_u32(VALUE_OFF).fetch_add(1, SeqCst);
            })
        };
        x.lane_u64(S_OFF).fetch_add(1, SeqCst);
        t.join();

        assert_eq!(x.lane_u32(VALUE_OFF).load(SeqCst), 1);
        assert_eq!(x.lane_u64(S_OFF).load(SeqCst), 1);
    });
}

#[test]
fn lane_cas_races_wide_cas_one_winner() {
    model(|cx| {
        let x = cx.word(0u128);

        let t = {
            let x = x.clone();
            cx.spawn(move |_| x.compare_exchange(0, 1u128 << 96, SeqCst, SeqCst).is_ok())
        };
        let lane_won = x.lane_u32(VALUE_OFF).compare_exchange(0, 2, SeqCst, SeqCst).is_ok();
        let wide_won = t.join();

        // Both compare the same (value) bits against 0: one, and only one, can
        // observe 0.
        let v = x.lane_u32(VALUE_OFF).load(SeqCst);
        match (lane_won, wide_won) {
            (true, false) => assert_eq!(v, 2),
            (false, true) => assert_eq!(v, 1),
            (true, true) => panic!("both CASes claimed the same bits"),
            (false, false) => panic!("neither CAS won on an untouched word"),
        }
    });
}

#[test]
fn atomic_u64_lane_u32() {
    model(|cx| {
        let x = cx.word(0xAAAA_BBBB_0000_0000u64);
        assert_eq!(x.lane_u32(0).fetch_add(1, SeqCst), 0);
        assert_eq!(x.load(Relaxed), 0xAAAA_BBBB_0000_0001);
        assert_eq!(x.lane_u32(4).load(Relaxed), 0xAAAA_BBBB);
    });
}

#[test]
#[should_panic(expected = "misaligned or out-of-bounds lane")]
fn misaligned_lane_panics() {
    model(|cx| {
        let x = cx.word(0u128);
        let _ = x.lane_u64(HIGH_OFF - 2);
    });
}

#[test]
#[should_panic(expected = "misaligned or out-of-bounds lane")]
fn out_of_bounds_lane_panics() {
    model(|cx| {
        let x = cx.word(0u128);
        let _ = x.lane_u32(16);
    });
}

// ----- sub-word accesses -----

const LANE_A: u128 = u64::MAX as u128;
const LANE_B: u128 = (u64::MAX as u128) << 64;

const VALUE: u128 = (u32::MAX as u128) << 96;
const HIGH: u128 = (u64::MAX as u128) << 64;
const S_MASK: u128 = u64::MAX as u128;

#[test]
fn masked_lanes_reorder_independently() {
    let seen = Arc::new(Mutex::new(HashSet::new()));
    let seen_ = seen.clone();
    model(move |cx| {
        let x = cx.word::<u128>(0);

        let w = {
            let x = x.clone();
            cx.spawn(move |_| {
                x.store_masked(LANE_A, 1, Relaxed);
                x.store_masked(LANE_B, 1 << 64, Relaxed);
            })
        };

        let b = (x.load_masked(LANE_B, Relaxed) >> 64) as u64;
        let a = x.load_masked(LANE_A, Relaxed) as u64;

        w.join();
        seen.lock().unwrap().insert((a, b));
    });

    let seen = seen_.lock().unwrap();
    assert!(
        seen.contains(&(0, 1)),
        "lane independence not explored; a welded ring would forbid it: {:?}",
        *seen
    );
    assert!(seen.contains(&(0, 0)));
    assert!(seen.contains(&(1, 1)));
}

#[test]
fn wide_store_never_tears() {
    let seen = Arc::new(Mutex::new(HashSet::new()));
    let seen_ = seen.clone();
    model(move |cx| {
        let x = cx.word::<u128>(0);

        x.store_masked(LANE_A, 0, Relaxed);

        let w = {
            let x = x.clone();
            cx.spawn(move |_| {
                x.store(1u128 | (1u128 << 64), Relaxed);
            })
        };

        let v = x.load(Relaxed);
        let a = (v & 1) as u64;
        let b = ((v >> 64) & 1) as u64;

        w.join();
        seen.lock().unwrap().insert((a, b));
    });

    let seen = seen_.lock().unwrap();
    assert!(!seen.contains(&(1, 0)), "torn wide store observed: {:?}", *seen);
    assert!(!seen.contains(&(0, 1)), "torn wide store observed: {:?}", *seen);
    assert!(seen.contains(&(0, 0)) && seen.contains(&(1, 1)), "{:?}", *seen);
}

#[test]
fn wide_cas_never_tears() {
    let seen = Arc::new(Mutex::new(HashSet::new()));
    let seen_ = seen.clone();
    model(move |cx| {
        let x = cx.word::<u128>(0);

        x.store_masked(LANE_A, 0, Relaxed);

        let w = {
            let x = x.clone();
            cx.spawn(move |_| {
                let _ = x.compare_exchange(0, 1u128 | (1u128 << 64), Relaxed, Relaxed);
            })
        };

        let v = x.load(Relaxed);
        let a = (v & 1) as u64;
        let b = ((v >> 64) & 1) as u64;

        w.join();
        seen.lock().unwrap().insert((a, b));
    });

    let seen = seen_.lock().unwrap();
    assert!(!seen.contains(&(1, 0)), "torn wide CAS observed: {:?}", *seen);
    assert!(!seen.contains(&(0, 1)), "torn wide CAS observed: {:?}", *seen);
    assert!(seen.contains(&(0, 0)) && seen.contains(&(1, 1)), "{:?}", *seen);
}

#[test]
fn full_load_keeps_disjoint_lanes_independent() {
    let seen = Arc::new(Mutex::new(HashSet::new()));
    let seen_ = seen.clone();
    model(move |cx| {
        let x = cx.word::<u128>(0);

        let wa = {
            let x = x.clone();
            cx.spawn(move |_| x.store_masked(VALUE, 1 << 96, Relaxed))
        };
        let ws = {
            let x = x.clone();
            cx.spawn(move |_| x.store_masked(S_MASK, 1, Relaxed))
        };

        let v = x.load(Relaxed);
        let value = ((v >> 96) & 1) as u64;
        let s = (v & 1) as u64;

        wa.join();
        ws.join();
        seen.lock().unwrap().insert((value, s));
    });

    let seen = seen_.lock().unwrap();
    for combo in [(0, 0), (1, 0), (0, 1), (1, 1)] {
        assert!(
            seen.contains(&combo),
            "disjoint lanes over-coupled; missing {:?} in {:?}",
            combo,
            *seen
        );
    }
}

#[test]
fn nested_value_within_high() {
    let seen = Arc::new(Mutex::new(HashSet::new()));
    let seen_ = seen.clone();
    model(move |cx| {
        let x = cx.word::<u128>(0);

        let wv = {
            let x = x.clone();
            cx.spawn(move |_| x.store_masked(VALUE, 2 << 96, Relaxed))
        };

        let _ = x.compare_exchange_masked(HIGH, 0, (1 << 64) | (1 << 96), Relaxed, Relaxed);

        let v = x.load(Relaxed);
        let value = (v >> 96) as u64;
        let owner = ((v >> 64) & (u32::MAX as u128)) as u64;

        wv.join();
        seen.lock().unwrap().insert((owner, value));
    });

    let seen = seen_.lock().unwrap();
    for &(owner, value) in seen.iter() {
        assert!(owner == 0 || owner == 1, "invented owner {}: {:?}", owner, *seen);
        assert!(
            value == 0 || value == 1 || value == 2,
            "invented value {}: {:?}",
            value,
            *seen
        );
        if owner == 1 {
            assert!(value == 1 || value == 2, "torn HIGH CAS: {:?}", *seen);
        }
    }
}

#[test]
fn masked_store_preserves_other_lane() {
    model(|cx| {
        let x = cx.word::<u128>(0);
        x.store(1u128 | (1u128 << 64), Relaxed);
        x.store_masked(LANE_A, 5, Relaxed);
        let v = x.load(Relaxed);
        assert_eq!(v & LANE_A, 5, "lane A wrong: {:#x}", v);
        assert_eq!(v & LANE_B, 1u128 << 64, "lane B clobbered: {:#x}", v);
    });
}

// ----- atomicity of read-modify-writes -----

#[test]
fn store_racing_cas_orders_after_the_rmw_write() {
    let finals = Arc::new(Mutex::new(HashSet::new()));
    let finals_ = finals.clone();

    model(move |cx| {
        let m = cx.word::<u64>(0);
        m.store(2, Release);

        let mc = m.clone();
        let th = cx.spawn(move |_| {
            let _ = mc.compare_exchange(2, (5u64 << 32) | 2, Release, Relaxed);
        });

        let g = (m.load(Relaxed) as u32).wrapping_add(1);
        m.store(g as u64, Release);

        th.join();

        let fin = m.load(Acquire);
        finals_.lock().unwrap().insert(fin);
        assert_eq!(fin, 3, "non-C11 final state {fin:#x}");
    });

    assert_eq!(*finals.lock().unwrap(), HashSet::from([3]));
}

#[test]
fn rmw_atomicity_does_not_overconstrain_concurrent_stores() {
    let seen = Arc::new(Mutex::new(HashSet::new()));
    let seen_ = seen.clone();

    model(move |cx| {
        let m = cx.word::<u64>(0);

        let m1 = m.clone();
        let t1 = cx.spawn(move |_| m1.store(1, Release));

        let m2 = m.clone();
        let t2 = cx.spawn(move |_| m2.store(2, Release));

        let m3 = m.clone();
        let t3 = cx.spawn(move |_| m3.fetch_add(10, Release));

        t1.join();
        t2.join();
        let prev = t3.join();

        let fin = m.load(Acquire);
        seen_.lock().unwrap().insert((prev, fin));
    });

    let allowed: HashSet<(u64, u64)> =
        HashSet::from([(0, 1), (0, 2), (1, 2), (1, 11), (2, 1), (2, 12)]);
    assert_eq!(*seen.lock().unwrap(), allowed);
}

#[test]
fn concurrent_fetch_adds_read_distinct_stores() {
    model(|cx| {
        let m = cx.word::<u64>(0);

        let m2 = m.clone();
        let th = cx.spawn(move |_| m2.fetch_add(1, Relaxed));

        let v1 = m.fetch_add(1, Relaxed);
        let v2 = th.join();

        assert_ne!(v1, v2);
        assert_eq!(m.load(Acquire), 2);
    });
}

#[test]
fn store_cannot_split_an_rmw_chain() {
    let finals = Arc::new(Mutex::new(HashSet::new()));
    let finals_ = finals.clone();

    model(move |cx| {
        let m = cx.word::<u64>(0);
        m.store(1, Release);

        let mc = m.clone();
        let th = cx.spawn(move |_| {
            mc.fetch_add(10, Release);
            mc.fetch_add(100, Release);
        });

        m.store(2, Release);

        th.join();

        let fin = m.load(Acquire);
        finals_.lock().unwrap().insert(fin);
        assert!(
            fin == 2 || fin == 102 || fin == 112,
            "store split an RMW pair: final {fin}"
        );
    });

    assert_eq!(*finals.lock().unwrap(), HashSet::from([2, 102, 112]));
}

// ----- races behind a leading load -----

#[test]
fn load_cas_prefix_explored_before_peer_load() {
    let values = Arc::new(Mutex::new(HashSet::new()));
    let values_ = values.clone();
    model(move |cx| {
        let x = cx.word::<usize>(0);
        let xc = x.clone();
        let th = cx.spawn(move |_| {
            let _ = xc.load(Acquire);
            let _ = xc.compare_exchange(0, 1, SeqCst, SeqCst);
        });
        let v = x.load(Acquire);
        th.join();
        values.lock().unwrap().insert(v);
    });
    let values = values_.lock().unwrap();
    assert!(values.contains(&0), "peer-load-first never explored");
    assert!(
        values.contains(&1),
        "the child's loadto CAS prefix was never explored ahead of the peer's load"
    );
}

#[test]
fn load_store_prefix_explored_before_peer_load() {
    let values = Arc::new(Mutex::new(HashSet::new()));
    let values_ = values.clone();
    model(move |cx| {
        let x = cx.word::<usize>(0);
        let xc = x.clone();
        let th = cx.spawn(move |_| {
            let _ = xc.load(Acquire);
            xc.store(1, SeqCst);
        });
        let v = x.load(Acquire);
        th.join();
        values.lock().unwrap().insert(v);
    });
    let values = values_.lock().unwrap();
    assert!(values.contains(&0), "peer-load-first never explored");
    assert!(
        values.contains(&1),
        "the child's loadto store prefix was never explored ahead of the peer's load"
    );
}

#[test]
fn acquire_load_races_sc_rmw() {
    let values = Arc::new(Mutex::new(HashSet::new()));
    let values_ = values.clone();
    model(move |cx| {
        let x = cx.word::<usize>(0);
        let xc = x.clone();
        let th = cx.spawn(move |_| {
            let _ = xc.compare_exchange(0, 1, SeqCst, SeqCst);
        });
        let v = x.load(Acquire);
        th.join();
        values.lock().unwrap().insert(v);
    });
    let values = values_.lock().unwrap();
    assert!(values.contains(&0), "stale read never explored");
    assert!(values.contains(&1), "fresh read never explored");
}

// ----- litmus tests -----

#[test]
fn store_buffering() {
    let values = Arc::new(Mutex::new(HashSet::new()));
    let values_ = values.clone();
    model(move |cx| {
        let x = cx.word::<usize>(0);
        let y = cx.word::<usize>(0);

        let a = {
            let (x, y) = (x.clone(), y.clone());
            cx.spawn(move |_| {
                x.store(1, Relaxed);
                y.load(Relaxed)
            })
        };

        y.store(1, Relaxed);
        let b = x.load(Relaxed);

        let a = a.join();
        values.lock().unwrap().insert((a, b));
    });
    assert!(values_.lock().unwrap().contains(&(0, 0)));
}

#[test]
fn store_buffering_seq_cst() {
    let values = Arc::new(Mutex::new(HashSet::new()));
    let values_ = values.clone();
    model(move |cx| {
        let x = cx.word::<usize>(0);
        let y = cx.word::<usize>(0);

        let a = {
            let (x, y) = (x.clone(), y.clone());
            cx.spawn(move |_| {
                x.store(1, SeqCst);
                y.load(SeqCst)
            })
        };

        y.store(1, SeqCst);
        let b = x.load(SeqCst);

        let a = a.join();
        values.lock().unwrap().insert((a, b));
    });
    let values = values_.lock().unwrap();
    assert!(!values.contains(&(0, 0)), "SC accesses must forbid the store-buffering both-miss");
    assert!(values.contains(&(1, 1)));
    assert!(values.contains(&(0, 1)));
    assert!(values.contains(&(1, 0)));
}

#[test]
fn store_buffering_seq_cst_rmw() {
    let values = Arc::new(Mutex::new(HashSet::new()));
    let values_ = values.clone();
    model(move |cx| {
        let x = cx.word::<usize>(0);
        let y = cx.word::<usize>(0);

        let a = {
            let (x, y) = (x.clone(), y.clone());
            cx.spawn(move |_| {
                x.fetch_or(1, SeqCst);
                y.load(SeqCst)
            })
        };

        y.fetch_or(1, SeqCst);
        let b = x.load(SeqCst);

        let a = a.join();
        values.lock().unwrap().insert((a, b));
    });
    let values = values_.lock().unwrap();
    assert!(!values.contains(&(0, 0)), "SC RMWs must forbid the store-buffering both-miss");
    assert!(values.contains(&(1, 1)));
    assert!(values.contains(&(0, 1)));
    assert!(values.contains(&(1, 0)));
}

#[test]
fn sc_access_no_hb_leak() {
    let values = Arc::new(Mutex::new(HashSet::new()));
    let values_ = values.clone();
    model(move |cx| {
        let x = cx.word::<usize>(0);
        let a = cx.word::<usize>(0);
        let b = cx.word::<usize>(0);

        let th = {
            let (x, a) = (x.clone(), a.clone());
            cx.spawn(move |_| {
                x.store(1, Relaxed);
                a.store(1, SeqCst);
            })
        };

        b.store(1, SeqCst);
        let v = x.load(Relaxed);

        th.join();
        values.lock().unwrap().insert(v);
    });
    let values = values_.lock().unwrap();
    assert!(values.contains(&0), "unrelated SC accesses must not force relaxed visibility");
    assert!(values.contains(&1));
}

#[test]
fn iriw_seq_cst() {
    let seen = Arc::new(Mutex::new(false));
    let seen_ = seen.clone();
    model(move |cx| {
        let x = cx.word::<usize>(0);
        let y = cx.word::<usize>(0);

        let wx = {
            let x = x.clone();
            cx.spawn(move |_| x.store(1, SeqCst))
        };
        let wy = {
            let y = y.clone();
            cx.spawn(move |_| y.store(1, SeqCst))
        };
        let r1 = {
            let (x, y) = (x.clone(), y.clone());
            cx.spawn(move |_| (x.load(SeqCst), y.load(SeqCst)))
        };
        let r2 = {
            let (x, y) = (x.clone(), y.clone());
            cx.spawn(move |_| (y.load(SeqCst), x.load(SeqCst)))
        };

        wx.join();
        wy.join();
        let (x1, y1) = r1.join();
        let (y2, x2) = r2.join();

        if (x1, y1, y2, x2) == (1, 0, 1, 0) {
            *seen.lock().unwrap() = true;
        }
    });
    assert!(!*seen_.lock().unwrap(), "SC forbids the IRIW disagreement outcome");
}

#[test]
fn rwc_seq_cst() {
    let seen = Arc::new(Mutex::new(false));
    let seen_ = seen.clone();
    model(move |cx| {
        let x = cx.word::<usize>(0);
        let y = cx.word::<usize>(0);

        let t1 = {
            let x = x.clone();
            cx.spawn(move |_| x.store(1, SeqCst))
        };
        let t2 = {
            let (x, y) = (x.clone(), y.clone());
            cx.spawn(move |_| {
                let a = x.load(SeqCst);
                y.store(1, SeqCst);
                a
            })
        };
        let t3 = {
            let (x, y) = (x.clone(), y.clone());
            cx.spawn(move |_| {
                let b = y.load(SeqCst);
                let c = x.load(SeqCst);
                (b, c)
            })
        };

        t1.join();
        let a = t2.join();
        let (b, c) = t3.join();

        if (a, b, c) == (1, 1, 0) {
            *seen.lock().unwrap() = true;
        }
    });
    assert!(!*seen_.lock().unwrap(), "SC forbids the RWC outcome (1, 1, 0)");
}

#[test]
fn sc_load_still_sees_every_racing_store() {
    let values = Arc::new(Mutex::new(HashSet::new()));
    let values_ = values.clone();
    model(move |cx| {
        let x = cx.word::<usize>(0);

        let w1 = {
            let x = x.clone();
            cx.spawn(move |_| x.store(1, SeqCst))
        };
        let w2 = {
            let x = x.clone();
            cx.spawn(move |_| x.store(2, SeqCst))
        };

        let v = x.load(SeqCst);

        w1.join();
        w2.join();
        values.lock().unwrap().insert(v);
    });
    let values = values_.lock().unwrap();
    for expected in [0, 1, 2] {
        assert!(
            values.contains(&expected),
            "SC load over-pruned: {expected} unreachable, saw {values:?}",
        );
    }
}

// ----- fences against accesses -----

#[test]
fn sb_fence_vs_sc_access() {
    let values = Arc::new(Mutex::new(HashSet::new()));
    let values_ = values.clone();
    model(move |cx| {
        let x = cx.word::<usize>(0);
        let y = cx.word::<usize>(0);

        let t1 = {
            let (x, y) = (x.clone(), y.clone());
            cx.spawn(move |cx| {
                x.store(1, Relaxed);
                cx.fence(SeqCst);
                y.load(Relaxed)
            })
        };

        y.store(1, SeqCst);
        let r2 = x.load(SeqCst);

        let r1 = t1.join();
        values.lock().unwrap().insert((r1, r2));
    });
    let values = values_.lock().unwrap();
    assert!(
        !values.contains(&(0, 0)),
        "a SeqCst fence must order against a SeqCst access: (0, 0) forbidden, saw {values:?}",
    );
    assert!(values.contains(&(1, 1)), "saw {values:?}");
    assert!(values.contains(&(0, 1)), "saw {values:?}");
    assert!(values.contains(&(1, 0)), "saw {values:?}");
}

#[test]
fn sb_sc_access_vs_fence() {
    let values = Arc::new(Mutex::new(HashSet::new()));
    let values_ = values.clone();
    model(move |cx| {
        let x = cx.word::<usize>(0);
        let y = cx.word::<usize>(0);

        let t1 = {
            let (x, y) = (x.clone(), y.clone());
            cx.spawn(move |_| {
                x.store(1, SeqCst);
                y.load(SeqCst)
            })
        };

        y.store(1, Relaxed);
        cx.fence(SeqCst);
        let r2 = x.load(Relaxed);

        let r1 = t1.join();
        values.lock().unwrap().insert((r1, r2));
    });
    let values = values_.lock().unwrap();
    assert!(
        !values.contains(&(0, 0)),
        "a SeqCst access must order against a SeqCst fence: (0, 0) forbidden, saw {values:?}",
    );
    assert!(values.contains(&(1, 1)), "saw {values:?}");
    assert!(values.contains(&(0, 1)), "saw {values:?}");
    assert!(values.contains(&(1, 0)), "saw {values:?}");
}

#[test]
fn iriw_fence_reader() {
    let seen = Arc::new(Mutex::new(false));
    let seen_ = seen.clone();
    model(move |cx| {
        let x = cx.word::<usize>(0);
        let y = cx.word::<usize>(0);

        let wx = {
            let x = x.clone();
            cx.spawn(move |_| x.store(1, SeqCst))
        };
        let wy = {
            let y = y.clone();
            cx.spawn(move |_| y.store(1, SeqCst))
        };
        let r1 = {
            let (x, y) = (x.clone(), y.clone());
            cx.spawn(move |_| (x.load(SeqCst), y.load(SeqCst)))
        };
        let r2 = {
            let (x, y) = (x.clone(), y.clone());
            cx.spawn(move |cx| {
                let c = y.load(Relaxed);
                cx.fence(SeqCst);
                let d = x.load(Relaxed);
                (c, d)
            })
        };

        wx.join();
        wy.join();
        let (a, b) = r1.join();
        let (c, d) = r2.join();

        if (a, b, c, d) == (1, 0, 1, 0) {
            *seen.lock().unwrap() = true;
        }
    });
    assert!(
        !*seen_.lock().unwrap(),
        "SC forbids the IRIW disagreement even when one reader orders with a fence",
    );
}

#[test]
fn fence_does_not_over_restrict_relaxed_store() {
    let values = Arc::new(Mutex::new(HashSet::new()));
    let values_ = values.clone();
    model(move |cx| {
        let x = cx.word::<usize>(0);

        let t1 = {
            let x = x.clone();
            cx.spawn(move |_| {
                x.store(1, Relaxed);
            })
        };

        cx.fence(SeqCst);
        let r = x.load(Relaxed);

        t1.join();
        values.lock().unwrap().insert(r);
    });
    let values = values_.lock().unwrap();
    assert!(values.contains(&0), "fresh-only: fence wrongly forced visibility, saw {values:?}");
    assert!(values.contains(&1), "stale-only: saw {values:?}");
}

#[test]
fn init_store_promotion_is_inert() {
    let values = Arc::new(Mutex::new(HashSet::new()));
    let values_ = values.clone();
    model(move |cx| {
        let x = cx.word::<usize>(0);

        let t1 = {
            let x = x.clone();
            cx.spawn(move |_| x.load(Relaxed))
        };

        x.store(1, Relaxed);
        cx.fence(SeqCst);

        let r = t1.join();
        values.lock().unwrap().insert(r);
    });
    let values = values_.lock().unwrap();
    assert!(values.contains(&0), "saw {values:?}");
    assert!(values.contains(&1), "saw {values:?}");
}

#[test]
fn iriw_both_fence_readers_relaxed_writes() {
    let seen = Arc::new(Mutex::new(false));
    let seen_ = seen.clone();
    model(move |cx| {
        let x = cx.word::<usize>(0);
        let y = cx.word::<usize>(0);

        let wx = {
            let x = x.clone();
            cx.spawn(move |_| x.store(1, Relaxed))
        };
        let wy = {
            let y = y.clone();
            cx.spawn(move |_| y.store(1, Relaxed))
        };
        let r1 = {
            let (x, y) = (x.clone(), y.clone());
            cx.spawn(move |cx| {
                let a = x.load(Relaxed);
                cx.fence(SeqCst);
                let b = y.load(Relaxed);
                (a, b)
            })
        };
        let r2 = {
            let (x, y) = (x.clone(), y.clone());
            cx.spawn(move |cx| {
                let c = y.load(Relaxed);
                cx.fence(SeqCst);
                let d = x.load(Relaxed);
                (c, d)
            })
        };

        wx.join();
        wy.join();
        let (a, b) = r1.join();
        let (c, d) = r2.join();

        if (a, b, c, d) == (1, 0, 1, 0) {
            *seen.lock().unwrap() = true;
        }
    });
    assert!(
        !*seen_.lock().unwrap(),
        "SC fences between both readers' loads must forbid IRIW disagreement \
         even with relaxed writes",
    );
}

#[test]
fn iriw_both_fence_readers_release_writes() {
    let seen = Arc::new(Mutex::new(false));
    let seen_ = seen.clone();
    model(move |cx| {
        let x = cx.word::<usize>(0);
        let y = cx.word::<usize>(0);

        let wx = {
            let x = x.clone();
            cx.spawn(move |_| x.store(1, Release))
        };
        let wy = {
            let y = y.clone();
            cx.spawn(move |_| y.store(1, Release))
        };
        let r1 = {
            let (x, y) = (x.clone(), y.clone());
            cx.spawn(move |cx| {
                let a = x.load(Relaxed);
                cx.fence(SeqCst);
                let b = y.load(Relaxed);
                (a, b)
            })
        };
        let r2 = {
            let (x, y) = (x.clone(), y.clone());
            cx.spawn(move |cx| {
                let c = y.load(Relaxed);
                cx.fence(SeqCst);
                let d = x.load(Relaxed);
                (c, d)
            })
        };

        wx.join();
        wy.join();
        let (a, b) = r1.join();
        let (c, d) = r2.join();

        if (a, b, c, d) == (1, 0, 1, 0) {
            *seen.lock().unwrap() = true;
        }
    });
    assert!(
        !*seen_.lock().unwrap(),
        "SC fences between both readers' loads must forbid IRIW disagreement \
         with release writes",
    );
}

#[test]
fn iriw_no_fences_reaches_disagreement() {
    let seen = Arc::new(Mutex::new(false));
    let seen_ = seen.clone();
    model(move |cx| {
        let x = cx.word::<usize>(0);
        let y = cx.word::<usize>(0);

        let wx = {
            let x = x.clone();
            cx.spawn(move |_| x.store(1, Release))
        };
        let wy = {
            let y = y.clone();
            cx.spawn(move |_| y.store(1, Release))
        };
        let r1 = {
            let (x, y) = (x.clone(), y.clone());
            cx.spawn(move |_| (x.load(Relaxed), y.load(Relaxed)))
        };
        let r2 = {
            let (x, y) = (x.clone(), y.clone());
            cx.spawn(move |_| (y.load(Relaxed), x.load(Relaxed)))
        };

        wx.join();
        wy.join();
        let (a, b) = r1.join();
        let (c, d) = r2.join();

        if (a, b, c, d) == (1, 0, 1, 0) {
            *seen.lock().unwrap() = true;
        }
    });
    assert!(
        *seen_.lock().unwrap(),
        "control: without fences the IRIW disagreement must be reachable, else \
         the 'forbidden' results above are not trustworthy",
    );
}

#[test]
fn frontier_does_not_over_order_independent_fences() {
    let values = Arc::new(Mutex::new(HashSet::new()));
    let values_ = values.clone();
    model(move |cx| {
        let data = cx.word::<usize>(0);
        let flag = cx.word::<usize>(0);

        let prod = {
            let (data, flag) = (data.clone(), flag.clone());
            cx.spawn(move |_| {
                data.store(1, Relaxed);
                flag.store(1, Release);
            })
        };
        let t1 = {
            let flag = flag.clone();
            cx.spawn(move |cx| {
                let r = flag.load(Acquire);
                cx.fence(SeqCst);
                r
            })
        };
        let t2 = {
            let data = data.clone();
            cx.spawn(move |cx| {
                cx.fence(SeqCst);
                data.load(Relaxed)
            })
        };

        prod.join();
        let r = t1.join();
        let d = t2.join();
        values.lock().unwrap().insert((r, d));
    });
    let values = values_.lock().unwrap();
    assert!(
        values.contains(&(1, 0)),
        "over-constraint: (r=1, d=0) is legal (no psc edge) yet unreachable - \
         the frontier is manufacturing fence ordering. saw {values:?}",
    );
}

#[test]
fn frontier_does_not_leak_transitively() {
    let values = Arc::new(Mutex::new(HashSet::new()));
    let values_ = values.clone();
    model(move |cx| {
        let data = cx.word::<usize>(0);
        let flag = cx.word::<usize>(0);

        let prod = {
            let (data, flag) = (data.clone(), flag.clone());
            cx.spawn(move |_| {
                data.store(1, Relaxed);
                flag.store(1, Release);
            })
        };
        let t1 = {
            let flag = flag.clone();
            cx.spawn(move |cx| {
                let r = flag.load(Acquire);
                cx.fence(SeqCst);
                r
            })
        };
        let t2 = cx.spawn(move |cx| cx.fence(SeqCst));
        let t3 = {
            let data = data.clone();
            cx.spawn(move |cx| {
                cx.fence(SeqCst);
                data.load(Relaxed)
            })
        };

        prod.join();
        let r = t1.join();
        t2.join();
        let d = t3.join();
        values.lock().unwrap().insert((r, d));
    });
    let values = values_.lock().unwrap();
    assert!(
        values.contains(&(1, 0)),
        "transitive over-constraint: (r=1, d=0) legal but unreachable across a \
         three-fence chain. saw {values:?}",
    );
}

#[test]
fn frontier_matches_psc_cycle_through_hb() {
    let values = Arc::new(Mutex::new(HashSet::new()));
    let values_ = values.clone();
    model(move |cx| {
        let data = cx.word::<usize>(0);
        let flag = cx.word::<usize>(0);
        let done = cx.word::<usize>(0);

        let prod = {
            let (data, flag) = (data.clone(), flag.clone());
            cx.spawn(move |_| {
                data.store(1, Relaxed);
                flag.store(1, Release);
            })
        };
        let t1 = {
            let (flag, done) = (flag.clone(), done.clone());
            cx.spawn(move |cx| {
                let r = flag.load(Acquire);
                cx.fence(SeqCst);
                done.store(1, Relaxed);
                r
            })
        };
        let t2 = {
            let (data, done) = (data.clone(), done.clone());
            cx.spawn(move |cx| {
                let obs = done.load(Relaxed);
                cx.fence(SeqCst);
                let d = data.load(Relaxed);
                (obs, d)
            })
        };

        prod.join();
        let r = t1.join();
        let (obs, d) = t2.join();
        values.lock().unwrap().insert((r, obs, d));
    });
    let values = values_.lock().unwrap();
    assert!(
        !values.contains(&(1, 1, 0)),
        "unsound: loom reached the psc-cyclic (r=1, obs=1, d=0). saw {values:?}",
    );
    assert!(
        values.contains(&(0, 1, 0)),
        "over-constraint: (0,1,0) is legal (r=0 breaks the F2to F1 edge). \
         saw {values:?}",
    );
    assert!(
        values.contains(&(1, 1, 1)),
        "over-constraint: (1,1,1) is legal (d=1, no fr edge). saw {values:?}",
    );
}

#[test]
fn sb_both_fences_forbids_both_miss() {
    let values = Arc::new(Mutex::new(HashSet::new()));
    let values_ = values.clone();
    model(move |cx| {
        let data = cx.word::<usize>(0);
        let flag = cx.word::<usize>(0);

        let t1 = {
            let (data, flag) = (data.clone(), flag.clone());
            cx.spawn(move |cx| {
                data.store(1, Relaxed);
                cx.fence(SeqCst);
                flag.load(Relaxed)
            })
        };
        let t2 = {
            let (data, flag) = (data.clone(), flag.clone());
            cx.spawn(move |cx| {
                flag.store(1, Relaxed);
                cx.fence(SeqCst);
                data.load(Relaxed)
            })
        };

        let f = t1.join();
        let d = t2.join();
        values.lock().unwrap().insert((f, d));
    });
    let values = values_.lock().unwrap();
    assert!(
        !values.contains(&(0, 0)),
        "SB+fences both-miss (0,0) must be forbidden. saw {values:?}",
    );
    assert!(values.contains(&(1, 0)), "saw {values:?}");
    assert!(values.contains(&(0, 1)), "saw {values:?}");
    assert!(values.contains(&(1, 1)), "saw {values:?}");
}

// ----- integers -----

// High and low halves are both non-trivial so the 128-bit types get full-width
// coverage.
const NUM_A: u128 = (7594829094997581893 << 64) | 11641914933775430211;
const NUM_B: u128 = (17298086858409381443 << 64) | 13209405719799650717;

/// Every operation on an atomic that holds `a` and meets `b`.
fn integer_ops<T>(a: T, b: T, xor: T, max: T, min: T)
where
    T: Numeric + PartialEq + std::fmt::Debug + Send + Sync + 'static,
{
    model(move |cx| {
        let atomic = cx.word(a);
        let prev = atomic.fetch_xor(b, SeqCst);
        assert_eq!(a, prev, "prev did not match");
        assert_eq!(xor, atomic.load(SeqCst), "load failed");
    });
    model(move |cx| {
        let atomic = cx.word(a);
        let prev = atomic.fetch_max(b, SeqCst);
        assert_eq!(a, prev, "prev did not match");
        assert_eq!(max, atomic.load(SeqCst), "load failed");
    });
    model(move |cx| {
        let atomic = cx.word(a);
        let prev = atomic.fetch_min(b, SeqCst);
        assert_eq!(a, prev, "prev did not match");
        assert_eq!(min, atomic.load(SeqCst), "load failed");
    });
    model(move |cx| {
        let atomic = cx.word(a);
        assert_eq!(Err(a), atomic.compare_exchange(b, a, SeqCst, SeqCst));
        assert_eq!(Ok(a), atomic.compare_exchange(a, b, SeqCst, SeqCst));
        assert_eq!(b, atomic.load(SeqCst));
    });
    model(move |cx| {
        let atomic = cx.word(a);
        assert_eq!(Err(a), atomic.compare_exchange_weak(b, a, SeqCst, SeqCst));
        assert_eq!(Ok(a), atomic.compare_exchange_weak(a, b, SeqCst, SeqCst));
        assert_eq!(b, atomic.load(SeqCst));
    });
    model(move |cx| {
        let atomic = cx.word(a);
        assert_eq!(a, atomic.compare_and_swap(b, a, SeqCst));
        assert_eq!(a, atomic.compare_and_swap(a, b, AcqRel));
        assert_eq!(b, atomic.load(SeqCst));
    });
    model(move |cx| {
        let atomic = cx.word(a);
        assert_eq!(Ok(a), atomic.fetch_update(SeqCst, SeqCst, |_| Some(b)));
        assert_eq!(Err(b), atomic.fetch_update(SeqCst, SeqCst, |_| None));
        assert_eq!(b, atomic.load(SeqCst));
    });
}

#[test]
fn unsigned_integers() {
    let (a, b) = (NUM_A as u8, NUM_B as u8);
    integer_ops(a, b, a ^ b, a.max(b), a.min(b));
    let (a, b) = (NUM_A as u16, NUM_B as u16);
    integer_ops(a, b, a ^ b, a.max(b), a.min(b));
    let (a, b) = (NUM_A as u32, NUM_B as u32);
    integer_ops(a, b, a ^ b, a.max(b), a.min(b));
    let (a, b) = (NUM_A as u64, NUM_B as u64);
    integer_ops(a, b, a ^ b, a.max(b), a.min(b));
    let (a, b) = (NUM_A as usize, NUM_B as usize);
    integer_ops(a, b, a ^ b, a.max(b), a.min(b));
    let (a, b) = (NUM_A, NUM_B);
    integer_ops(a, b, a ^ b, a.max(b), a.min(b));
}

#[test]
fn signed_integers() {
    let (a, b) = (NUM_A as i8, NUM_B as i8);
    integer_ops(a, b, a ^ b, a.max(b), a.min(b));
    let (a, b) = (NUM_A as i16, NUM_B as i16);
    integer_ops(a, b, a ^ b, a.max(b), a.min(b));
    let (a, b) = (NUM_A as i32, NUM_B as i32);
    integer_ops(a, b, a ^ b, a.max(b), a.min(b));
    let (a, b) = (NUM_A as i64, NUM_B as i64);
    integer_ops(a, b, a ^ b, a.max(b), a.min(b));
    let (a, b) = (NUM_A as isize, NUM_B as isize);
    integer_ops(a, b, a ^ b, a.max(b), a.min(b));
    let (a, b) = (NUM_A as i128, NUM_B as i128);
    integer_ops(a, b, a ^ b, a.max(b), a.min(b));
}

#[test]
fn updates_wrap_at_the_width_of_the_type() {
    model(|cx| {
        let x = cx.word(250u8);
        assert_eq!(x.fetch_add(10, Relaxed), 250);
        assert_eq!(x.fetch_sub(5, Relaxed), 4);
        assert_eq!(x.swap(0b1100, Relaxed), 255);
        assert_eq!(x.fetch_and(0b0110, Relaxed), 0b1100);
        assert_eq!(x.fetch_or(0b0001, Relaxed), 0b0100);
        assert_eq!(x.fetch_nand(0b0111, Relaxed), 0b0101);
        assert_eq!(x.load(Relaxed), !0b0101);

        let y = cx.word(i16::MAX);
        assert_eq!(y.fetch_add(1, Relaxed), i16::MAX);
        assert_eq!(y.load(Relaxed), i16::MIN);
    });
}

const HIGH_BIT: u128 = 1 << 127;
const LOW_HALF: u128 = u64::MAX as u128;

#[test]
fn fetch_add_carries_across_bit_64() {
    model(|cx| {
        let atomic = cx.word(LOW_HALF);
        assert_eq!(atomic.fetch_add(1, SeqCst), LOW_HALF);
        assert_eq!(atomic.load(SeqCst), 1 << 64);
    });
}

#[test]
fn fetch_sub_borrows_across_bit_64() {
    model(|cx| {
        let atomic = cx.word(1u128 << 64);
        assert_eq!(atomic.fetch_sub(1, SeqCst), 1 << 64);
        assert_eq!(atomic.load(SeqCst), LOW_HALF);
    });
}

#[test]
fn fetch_add_wraps_at_max() {
    model(|cx| {
        let atomic = cx.word(u128::MAX);
        assert_eq!(atomic.fetch_add(1, SeqCst), u128::MAX);
        assert_eq!(atomic.load(SeqCst), 0);
    });
}

#[test]
fn compare_exchange_distinguishes_high_words() {
    model(|cx| {
        // Identical low 64 bits; only the high word differs.
        let a = (1u128 << 64) | 42;
        let b = (2u128 << 64) | 42;

        let atomic = cx.word(a);
        assert_eq!(Err(a), atomic.compare_exchange(b, HIGH_BIT, SeqCst, SeqCst));
        assert_eq!(Ok(a), atomic.compare_exchange(a, b, SeqCst, SeqCst));
        assert_eq!(b, atomic.load(SeqCst));
    });
}

#[test]
fn negative_i128_round_trips() {
    model(|cx| {
        let atomic = cx.word(i128::MIN);
        assert_eq!(atomic.swap(-1, SeqCst), i128::MIN);
        assert_eq!(atomic.load(SeqCst), -1);
        assert_eq!(atomic.fetch_min(i128::MIN, SeqCst), -1);
        assert_eq!(atomic.load(SeqCst), i128::MIN);
    });
}

#[test]
fn store_release_load_acquire_across_threads() {
    model(|cx| {
        let atomic = cx.word(0u128);
        let flagged = HIGH_BIT | 1;

        let a = atomic.clone();
        let th = cx.spawn(move |_| {
            a.store(flagged, Release);
        });

        let observed = atomic.load(Acquire);
        assert!(
            observed == 0 || observed == flagged,
            "torn or invented value: {observed:#034x}"
        );
        th.join();
    });
}

#[test]
fn concurrent_rmw_keeps_both_words() {
    model(|cx| {
        // Each thread increments its own 64-bit half; if the model lost either
        // half, one of the increments would vanish.
        let atomic = cx.word(0u128);

        let a = atomic.clone();
        let th = cx.spawn(move |_| {
            a.fetch_add(1 << 64, SeqCst);
        });
        atomic.fetch_add(1, SeqCst);
        th.join();

        assert_eq!(atomic.load(SeqCst), (1 << 64) | 1);
    });
}

#[test]
fn with_mut_and_into_inner_preserve_full_width() {
    model(|cx| {
        let atomic = cx.word(HIGH_BIT);
        atomic.with_mut(|v| {
            assert_eq!(*v, HIGH_BIT);
            *v |= 1;
        });
        assert_eq!(atomic.load(SeqCst), HIGH_BIT | 1);
        assert_eq!(atomic.into_inner(), HIGH_BIT | 1);
    });
}

// ----- preserving read-modify-writes -----

const O_OFF: usize = 8;
const V_OFF: usize = 12;

const O_MASK: u128 = (u32::MAX as u128) << 64;

const OWNER: u32 = 0xABCD;
const OWNER_BITS: u128 = (OWNER as u128) << 64;

const PUBLISHED: u128 = (1u128 << 96) | 1;

#[derive(Clone)]
struct Log(Arc<Mutex<BTreeSet<String>>>);

impl Log {
    fn new() -> Log {
        Log(Arc::new(Mutex::new(BTreeSet::new())))
    }

    fn record(&self, what: String) {
        self.0.lock().unwrap().insert(what);
    }
}

fn observe(f: impl Fn(&Cx, &Log) + Send + Sync + 'static) -> (BTreeSet<String>, usize) {
    let log = Log::new();
    let inner = log.clone();
    let stats = model(move |cx| f(cx, &inner));
    let seen = log.0.lock().unwrap().clone();
    (seen, stats.executions)
}

fn fused_wake(preserving: bool) -> impl Fn(&Cx, &Log) + Send + Sync + 'static {
    move |cx: &Cx, log: &Log| {
        let x = cx.word(OWNER_BITS);

        let w = {
            let x = x.clone();
            cx.spawn(move |_| {
                let r = if preserving {
                    x.compare_exchange_preserving(O_MASK, OWNER_BITS, PUBLISHED, AcqRel, Relaxed)
                } else {
                    x.compare_exchange(OWNER_BITS, OWNER_BITS | PUBLISHED, AcqRel, Relaxed)
                };
                assert!(r.is_ok(), "uncontended CAS must succeed");
            })
        };

        let r = {
            let x = x.clone();
            let log = log.clone();
            cx.spawn(move |_| {
                let a = x.lane_u32(O_OFF).load(Relaxed);
                let b = x.lane_u32(O_OFF).load(Relaxed);
                log.record(format!("owner {a:#x},{b:#x}"));
            })
        };

        let v = x.lane_u32(V_OFF).load(Relaxed);
        let s = x.lane_u64(S_OFF).load(Relaxed);
        log.record(format!("value {v} s {s}"));

        w.join();
        r.join();

        assert_eq!(x.load(Relaxed), OWNER_BITS | PUBLISHED);
    }
}

#[test]
fn preserving_reaches_the_same_behaviors_in_fewer_executions() {
    let (full_seen, full_execs) = observe(fused_wake(false));
    let (pres_seen, pres_execs) = observe(fused_wake(true));

    assert_eq!(
        full_seen, pres_seen,
        "declaring the owner lane preserved changed which behaviors are reachable"
    );
    assert!(
        pres_execs < full_execs,
        "preserving explored {pres_execs} executions against the full-width \
         CAS's {full_execs}"
    );
}

#[test]
fn seeing_a_preserving_op_floors_the_lane_it_carried() {
    let (seen, _) = observe(|cx: &Cx, log: &Log| {
        let x = cx.word(0u128);

        let w = {
            let x = x.clone();
            cx.spawn(move |_| {
                x.lane_u32(O_OFF).store(OWNER, Relaxed);
                x.compare_exchange_preserving(O_MASK, OWNER_BITS, 1 << 96, Relaxed, Relaxed)
                    .expect("uncontended CAS must succeed");
            })
        };

        let v = x.lane_u32(V_OFF).load(Relaxed);
        let o = x.lane_u32(O_OFF).load(Relaxed);

        w.join();
        log.record(format!("v={v} o={o:#x}"));
    });

    assert!(seen.contains("v=0 o=0x0"), "{seen:?}");
    assert!(seen.contains("v=0 o=0xabcd"), "{seen:?}");
    assert!(seen.contains("v=1 o=0xabcd"), "{seen:?}");

    assert!(
        !seen.contains("v=1 o=0x0"),
        "took the value lane that the wide CAS installed and then an owner lane \
         older than the one it carried: {seen:?}"
    );
}

#[test]
fn the_carried_lane_comes_from_the_cell_not_from_the_argument() {
    model(|cx| {
        let x = cx.word(OWNER_BITS);

        x.compare_exchange_preserving(
            O_MASK,
            OWNER_BITS,
            PUBLISHED | (0xBEEF << 64),
            Relaxed,
            Relaxed,
        )
        .expect("uncontended CAS must succeed");

        assert_eq!(x.load(Relaxed), OWNER_BITS | PUBLISHED);
    });
}

#[test]
#[should_panic(expected = "the preserved lane is not preserved")]
fn changing_a_carried_lane_traps() {
    model(|cx| {
        let x = cx.word(OWNER_BITS);

        x.fetch_modify_preserving(!O_MASK, |cur| (cur & !O_MASK) | (0xBEEF << 64), Relaxed);
    });
}

fn carried_wake(x: &Word<u128>) {
    let cx = x.cx.clone();
    let x = x.clone();
    cx.spawn(move |_| {
        x.compare_exchange_preserving(O_MASK, OWNER_BITS, PUBLISHED, AcqRel, Relaxed)
            .expect("uncontended CAS must succeed");
    })
    .join();
}

#[test]
#[should_panic(expected = "acquiring read of a preserved lane")]
fn acquiring_through_a_carried_lane_traps() {
    model(|cx| {
        let x = cx.word(OWNER_BITS);
        carried_wake(&x);
        let _ = x.lane_u32(O_OFF).load(Acquire);
    });
}

#[test]
#[should_panic(expected = "another thread has already acquire-read")]
fn carrying_a_lane_another_thread_acquires_traps() {
    model(|cx| {
        let x = cx.word(OWNER_BITS);
        let _ = x.lane_u32(O_OFF).load(Acquire);
        carried_wake(&x);
    });
}

#[test]
#[should_panic(expected = "read only through a preserved lane")]
fn fencing_after_a_carried_lane_read_traps() {
    model(|cx| {
        let x = cx.word(OWNER_BITS);
        let _ = x.lane_u32(O_OFF).load(Relaxed);
        carried_wake(&x);
        cx.fence(Acquire);
    });
}

#[test]
fn a_thread_may_acquire_through_a_lane_it_carried_itself() {
    model(|cx| {
        let x = cx.word(OWNER_BITS);

        x.compare_exchange_preserving(O_MASK, OWNER_BITS, PUBLISHED, AcqRel, Relaxed)
            .expect("uncontended CAS must succeed");

        assert_eq!(x.lane_u32(O_OFF).load(Acquire), OWNER);
        cx.fence(Acquire);
    });
}

#[test]
fn a_reader_routed_through_a_written_lane_may_still_acquire() {
    model(|cx| {
        let x = cx.word(OWNER_BITS);

        let w = {
            let x = x.clone();
            cx.spawn(move |_| {
                x.compare_exchange_preserving(O_MASK, OWNER_BITS, PUBLISHED, AcqRel, Relaxed)
                    .expect("uncontended CAS must succeed");
            })
        };

        let _ = x.load(Acquire);
        w.join();
    });
}

// ----- condition variables -----

struct Inc {
    num: Word<usize>,
    mutex: Lock<()>,
    condvar: Cv,
}

impl Inc {
    fn new(cx: &Cx) -> Inc {
        Inc { num: cx.word(0), mutex: Lock::new(cx, ()), condvar: Cv::new(cx) }
    }

    fn wait(&self) {
        let mut guard = self.mutex.lock();

        loop {
            let val = self.num.load(SeqCst);
            if 1 == val {
                break;
            }

            guard = self.condvar.wait(guard);
        }
    }

    fn inc(&self) {
        self.num.store(1, SeqCst);
        drop(self.mutex.lock());
        self.condvar.notify_one();
    }

    fn inc_all(&self) {
        self.num.store(1, SeqCst);
        drop(self.mutex.lock());
        self.condvar.notify_all();
    }
}

#[test]
fn notify_one() {
    model(|cx| {
        let inc = Arc::new(Inc::new(cx));

        for _ in 0..1 {
            let inc = inc.clone();
            cx.spawn(move |_| inc.inc());
        }

        inc.wait();
    });
}

#[test]
fn notify_all() {
    model(|cx| {
        let inc = Arc::new(Inc::new(cx));

        let mut waiters = Vec::new();
        for _ in 0..2 {
            let inc = inc.clone();
            waiters.push(cx.spawn(move |_| inc.wait()));
        }

        cx.spawn(move |_| inc.inc_all()).join();

        for th in waiters {
            th.join();
        }
    });
}

fn count(c: &Arc<Counter>) -> usize {
    c.load(std::sync::atomic::Ordering::SeqCst)
}

fn bump(c: &Arc<Counter>) {
    c.fetch_add(1, std::sync::atomic::Ordering::SeqCst);
}

fn counter() -> Arc<Counter> {
    Arc::new(Counter::new(0))
}

#[test]
fn wait_timeout_explores_both_outcomes() {
    let expired = counter();
    let woken = counter();
    let (expired_, woken_) = (expired.clone(), woken.clone());

    model(move |cx| {
        let mutex = Lock::new(cx, false);
        let condvar = Cv::new(cx);

        let notifier = {
            let (mutex, condvar) = (mutex.clone(), condvar.clone());
            cx.spawn(move |_| {
                *mutex.lock() = true;
                condvar.notify_one();
            })
        };

        let mut ready = mutex.lock();
        let mut timed_out = false;

        while !*ready {
            let (guard, result) = condvar.wait_timeout(ready);
            ready = guard;

            if result.timed_out() {
                timed_out = true;
                break;
            }
        }

        drop(ready);
        notifier.join();

        if timed_out {
            bump(&expired_);
        } else {
            bump(&woken_);
        }
    });

    assert!(count(&expired) > 0, "timed-out branch never explored");
    assert!(count(&woken) > 0, "notified branch never explored");
}

fn expire(cx: &Cx) {
    let mutex = Lock::new(cx, ());
    let condvar = Cv::new(cx);

    let mut guard = mutex.lock();
    loop {
        let (g, result) = condvar.wait_timeout(guard);
        guard = g;
        if result.timed_out() {
            break;
        }
    }
    drop(guard);
}

#[test]
fn wait_timeout_without_notifier_times_out() {
    model(|cx| expire(cx));
}

#[test]
fn wait_timeout_without_notifier_cross_thread() {
    model(|cx| {
        cx.spawn(|cx| expire(cx)).join();
    });
}

#[test]
fn wait_explores_spurious_wakeup() {
    let spurious = counter();
    let spurious_ = spurious.clone();

    model(move |cx| {
        let mutex = Lock::new(cx, false);
        let condvar = Cv::new(cx);

        let notifier = {
            let (mutex, condvar) = (mutex.clone(), condvar.clone());
            cx.spawn(move |_| {
                *mutex.lock() = true;
                condvar.notify_one();
            })
        };

        let mut ready = mutex.lock();

        while !*ready {
            ready = condvar.wait(ready);

            if !*ready {
                bump(&spurious_);
            }
        }

        drop(ready);
        notifier.join();
    });

    assert!(count(&spurious) > 0, "spurious wakeup never explored");
}

#[test]
fn a_condvar_wakes_itself_once_in_an_execution() {
    let most = counter();
    let most_ = most.clone();

    model(move |cx| {
        let mutex = Lock::new(cx, false);
        let condvar = Cv::new(cx);

        let notifier = {
            let (mutex, condvar) = (mutex.clone(), condvar.clone());
            cx.spawn(move |_| {
                *mutex.lock() = true;
                condvar.notify_one();
            })
        };

        let mut ready = mutex.lock();
        let mut unasked = 0;

        while !*ready {
            ready = condvar.wait(ready);

            if !*ready {
                unasked += 1;
            }
        }

        drop(ready);
        notifier.join();
        assert!(unasked <= 1, "woke on its own {unasked} times");

        if unasked == 1 {
            bump(&most_);
        }
    });

    assert!(count(&most) > 0);
}

#[test]
#[should_panic]
fn wait_without_notifier_deadlocks() {
    model(|cx| {
        let mutex = Lock::new(cx, ());
        let condvar = Cv::new(cx);

        let guard = mutex.lock();
        let _guard = condvar.wait(guard);
    });
}

// ----- cells that register on their first access -----

#[test]
fn const_static_resets_between_executions() {
    let cx = Cx::new();
    let iters = counter();
    let iters_ = iters.clone();
    let x = cx.deferred(0usize);

    check_with(&cx, &default_builder(), move |cx| {
        assert_eq!(x.load(Relaxed), 0, "const static leaked a store across executions");
        bump(&iters_);

        let t = {
            let x = x.clone();
            cx.spawn(move |_| x.store(1, Relaxed))
        };
        x.store(2, Relaxed);
        t.join();

        assert_ne!(x.load(Relaxed), 0);
    });

    assert!(count(&iters) > 1, "rig explored a single execution; the reset check was vacuous");
}

#[test]
fn const_bool_ptr_and_with_mut_reset_between_executions() {
    let cx = Cx::new();
    let iters = counter();
    let iters_ = iters.clone();
    let b = cx.deferred(0u8);
    let p = cx.deferred(0usize);

    check_with(&cx, &default_builder(), move |cx| {
        assert_eq!(b.load(Relaxed), 0, "const flag leaked across executions");
        assert_eq!(p.load(Relaxed), 0, "const pointer leaked across executions");
        bump(&iters_);

        let local = cx.deferred(5usize);
        assert_eq!(local.with_mut(|v| std::mem::replace(v, 6)), 5);
        assert_eq!(local.load(Relaxed), 6);

        let t = {
            let (b, p) = (b.clone(), p.clone());
            cx.spawn(move |_| {
                b.store(1, Relaxed);
                p.load(Relaxed)
            })
        };
        let target = 0x7000usize;
        p.store(target, Relaxed);
        let seen = b.load(Relaxed);
        let q = t.join();
        assert!(seen <= 1);
        assert!(q == 0 || q == target);
    });

    assert!(count(&iters) > 1);
}

#[test]
fn deferred_cell_survives_a_move() {
    model(|cx| {
        let a = cx.deferred(7usize);
        assert_eq!(a.load(Relaxed), 7);
        a.store(99, Relaxed);

        let b = a;
        assert_eq!(b.load(Relaxed), 99, "moving a registered deferred cell lost its history");

        b.store(100, Relaxed);
        assert_eq!(b.load(Relaxed), 100);
    });
}

#[test]
fn deferred_cells_survive_a_boxed_struct_move() {
    model(|cx| {
        let cells =
            [cx.deferred(0usize), cx.deferred(1usize), cx.deferred(2usize), cx.deferred(3usize)];
        for (i, c) in cells.iter().enumerate() {
            assert_eq!(c.load(Relaxed), i);
            c.store(i + 10, Relaxed);
        }

        let boxed = Box::new(cells);
        for (i, c) in boxed.iter().enumerate() {
            assert_eq!(
                c.load(Relaxed),
                i + 10,
                "cell {i} lost its history when the owner moved to the heap"
            );
        }
    });
}

#[test]
fn recycled_address_is_a_distinct_cell() {
    model(|cx| {
        for i in 1..=4usize {
            let a = cx.deferred(i);
            assert_eq!(a.load(Relaxed), i, "cell {i} inherited a freed cell's history");
            a.store(1000 + i, Relaxed);
            assert_eq!(a.load(Relaxed), 1000 + i);
        }
    });
}

#[test]
fn const_statics_explore_identically_under_parallel_workers() {
    fn rig(threads: usize) -> usize {
        let cx = Cx::new();
        let x = cx.deferred(0usize);
        let y = cx.deferred(0usize);
        let mut builder = default_builder();
        builder.threads = threads;
        let f = move |cx: &Cx| {
            let t = {
                let (x, y) = (x.clone(), y.clone());
                cx.spawn(move |_| {
                    x.store(1, Release);
                    y.load(Acquire)
                })
            };
            y.store(1, Release);
            let a = x.load(Acquire);
            let b = t.join();
            assert!(a == 1 || b == 1 || (a == 0 && b == 0));
        };
        if threads == 1 {
            check_with(&cx, &builder, f).executions
        } else {
            check_sharded(&cx, &builder, 16, f).executions
        }
    }

    assert_eq!(
        rig(1),
        rig(4),
        "parallel workers explored a different state space through a const static"
    );
}

#[test]
fn deferred_and_eager_cells_explore_the_same_state_space() {
    fn rig(make: fn(&Cx) -> Word<usize>) -> usize {
        model(move |cx| {
            let x = make(cx);
            let y = make(cx);

            let (x2, y2) = (x.clone(), y.clone());
            let t = cx.spawn(move |_| {
                x2.store(1, Relaxed);
                y2.load(Relaxed)
            });

            y.store(1, Relaxed);
            let a = x.load(Relaxed);
            let b = t.join();
            let _ = (a, b);
        })
        .executions
    }

    let eager = rig(|cx| cx.word(0));
    let deferred = rig(|cx| cx.deferred(0));

    assert_eq!(eager, deferred, "deferred registration changed the explored state space");
    assert!(eager > 1, "rig collapsed to one execution; comparison vacuous");
}

#[test]
fn eager_and_deferred_cells_interoperate() {
    let cx = Cx::new();
    let deferred = cx.deferred(0usize);

    check_with(&cx, &default_builder(), move |cx| {
        let eager = cx.word(0usize);
        let e2 = eager.clone();
        let d2 = deferred.clone();

        let t = cx.spawn(move |_| {
            d2.store(1, Release);
            e2.store(1, Release);
        });

        let e = eager.load(Acquire);
        let d = deferred.load(Acquire);
        t.join();

        assert!(e <= 1 && d <= 1);
        assert_eq!(eager.load(Relaxed), 1);
        assert_eq!(deferred.load(Relaxed), 1);
    });
}

fn const_message_passing(publish: Order, consume: Order) {
    let cx = Cx::new();
    let data = cx.deferred(0usize);
    let flag = cx.deferred(0u8);

    check_with(&cx, &default_builder(), move |cx| {
        let t = {
            let (data, flag) = (data.clone(), flag.clone());
            cx.spawn(move |_| {
                data.store(42, Relaxed);
                flag.store(1, publish);
            })
        };

        if flag.load(consume) == 1 {
            assert_eq!(data.load(Relaxed), 42, "stale read");
        }
        t.join();
    });
}

#[test]
#[should_panic(expected = "stale read")]
fn relaxed_message_passing_through_const_statics_exposes_the_stale_read() {
    const_message_passing(Relaxed, Relaxed);
}

#[test]
fn release_acquire_message_passing_through_const_statics_holds() {
    const_message_passing(Release, Acquire);
}

/// How often both threads of a store-buffering rig over const cells missed the
/// other's store.
fn const_store_buffering(order: Order) -> usize {
    let cx = Cx::new();
    let both_zero = counter();
    let both_zero_ = both_zero.clone();
    let x = cx.deferred(0usize);
    let y = cx.deferred(0usize);

    check_with(&cx, &default_builder(), move |cx| {
        let t = {
            let (x, y) = (x.clone(), y.clone());
            cx.spawn(move |_| {
                x.store(1, order);
                y.load(if order == SeqCst { SeqCst } else { Relaxed })
            })
        };
        y.store(1, order);
        let a = x.load(if order == SeqCst { SeqCst } else { Relaxed });
        let b = t.join();

        if a == 0 && b == 0 {
            bump(&both_zero_);
        }
    });

    count(&both_zero)
}

#[test]
fn seqcst_store_buffering_is_forbidden_through_const_statics() {
    assert_eq!(
        const_store_buffering(SeqCst),
        0,
        "sequentially consistent store buffering observed through const statics"
    );
}

#[test]
fn relaxed_store_buffering_is_reachable_through_const_statics() {
    assert!(
        const_store_buffering(Relaxed) > 0,
        "relaxed store buffering was never observed: const cells are over-synchronized"
    );
}

#[test]
fn rmw_atomicity_holds_on_deferred_cells() {
    let cx = Cx::new();
    let n = cx.deferred(0usize);

    check_with(&cx, &default_builder(), move |cx| {
        let t = {
            let n = n.clone();
            cx.spawn(move |_| {
                n.fetch_add(1, AcqRel);
            })
        };
        n.fetch_add(1, AcqRel);
        t.join();

        assert_eq!(n.load(SeqCst), 2, "lost update on a deferred cell");
    });
}

#[test]
fn lane_ops_partition_a_deferred_cell() {
    model(|cx| {
        let x = cx.deferred(0u128);

        x.lane_u32(0).store(0x1111_1111, Relaxed);
        x.lane_u32(4).store(0x2222_2222, Relaxed);
        x.lane_u32(8).store(0x3333_3333, Relaxed);
        x.lane_u32(12).store(0x4444_4444, Relaxed);

        assert_eq!(x.load(Relaxed), 0x4444_4444_3333_3333_2222_2222_1111_1111u128);
        assert_eq!(x.lane_u64(0).load(Relaxed), 0x2222_2222_1111_1111);
    });
}

#[test]
fn deferred_wide_cell_stays_single_copy_atomic_across_lanes() {
    let cx = Cx::new();
    let w = cx.deferred(0u128);

    check_with(&cx, &default_builder(), move |cx| {
        let t = {
            let w = w.clone();
            cx.spawn(move |_| w.lane_u64(8).store(u64::MAX, Release))
        };
        w.lane_u64(0).store(1, Release);
        t.join();

        let v = w.load(SeqCst);
        assert_eq!(v & u64::MAX as u128, 1);
        assert_eq!(v >> 64, u64::MAX as u128);
    });
}

#[test]
fn never_accessed_const_static_is_inert() {
    let cx = Cx::new();
    let _unused_a = cx.deferred(1234usize);
    let _unused_b = cx.deferred(0usize);
    let used = cx.deferred(0usize);

    check_with(&cx, &default_builder(), move |cx| {
        let t = {
            let used = used.clone();
            cx.spawn(move |_| used.store(1, Release))
        };
        let v = used.load(Acquire);
        t.join();
        assert!(v <= 1);
    });
}

#[test]
fn first_touch_from_either_thread_is_equivalent() {
    let cx = Cx::new();
    let x = cx.deferred(0usize);

    check_with(&cx, &default_builder(), move |cx| {
        let t = {
            let x = x.clone();
            cx.spawn(move |_| {
                let v = x.load(Relaxed);
                x.store(v + 1, Relaxed);
            })
        };
        let v = x.load(Relaxed);
        x.store(v + 10, Relaxed);
        t.join();

        assert!(x.load(Relaxed) > 0);
    });
}

#[test]
fn unsync_load_of_a_deferred_cell_is_clean() {
    model(|cx| {
        let x = cx.deferred(3usize);
        assert_eq!(x.unsync_load(), 3);
        x.store(4, Relaxed);
        assert_eq!(x.unsync_load(), 4);
    });
}

// ----- cells in published memory -----

const BASE: u64 = 0x4_0000;

/// Published memory, as an array of 64-bit cells.
fn region(cx: &Cx, cells: u64) -> Vec<Word<u64>> {
    cx.publish(BASE, cells * 8);
    (0..cells).map(|i| cx.placed(BASE + i * 8)).collect()
}

#[test]
fn zeroed_memory_is_a_usable_cell_array() {
    model(|cx| {
        let cells = region(cx, 2);

        assert_eq!(cells[0].load(Relaxed), 0);
        assert_eq!(cells[1].load(Relaxed), 0);

        let w = cells.clone();
        let t = cx.spawn(move |_| {
            w[0].store(1, Relaxed);
        });

        cells[1].store(2, Relaxed);
        t.join();

        assert_eq!(cells[0].load(Relaxed), 1);
        assert_eq!(cells[1].load(Relaxed), 2);
    });
}

#[test]
fn distinct_slots_are_distinct_cells() {
    model(|cx| {
        let cells = region(cx, 4);

        for (i, cell) in cells.iter().enumerate() {
            cell.store(i as u64 + 1, Relaxed);
        }

        for (i, cell) in cells.iter().enumerate() {
            assert_eq!(cell.load(Relaxed), i as u64 + 1);
        }
    });
}

#[test]
fn static_region_resets_between_executions() {
    let executions = counter();
    let executions_ = executions.clone();

    model(move |cx| {
        let shared = region(cx, 2);

        // Whatever the previous execution left behind must be invisible.
        assert_eq!(shared[0].load(Relaxed), 0);
        assert_eq!(shared[1].load(Relaxed), 0);

        // Conflicting accesses to one cell, so both orders are explored.
        let t = {
            let shared = shared.clone();
            cx.spawn(move |_| {
                shared[0].store(7, Relaxed);
            })
        };

        let seen = shared[0].load(Relaxed);
        assert!(seen == 0 || seen == 7);

        shared[1].fetch_add(9, Relaxed);
        t.join();

        bump(&executions_);
    });

    assert!(count(&executions) > 1, "reset is only meaningful across several executions");
}

fn region_message_passing(publish: Order, consume: Order) {
    model(move |cx| {
        let cells = region(cx, 2);
        let w = cells.clone();

        let t = cx.spawn(move |_| {
            w[0].store(42, Relaxed);
            w[1].store(1, publish);
        });

        if cells[1].load(consume) == 1 {
            assert_eq!(cells[0].load(Relaxed), 42);
        }

        t.join();
    });
}

#[test]
fn release_acquire_message_passing_holds() {
    region_message_passing(Release, Acquire);
}

#[test]
#[should_panic]
fn relaxed_message_passing_exposes_the_stale_read() {
    region_message_passing(Relaxed, Relaxed);
}

#[test]
fn rmw_atomicity_holds() {
    model(|cx| {
        let cells = region(cx, 1);
        let w = cells.clone();

        let t = cx.spawn(move |_| {
            w[0].fetch_add(1, AcqRel);
        });

        cells[0].fetch_add(1, AcqRel);
        t.join();

        // No interleaving may lose an increment.
        assert_eq!(cells[0].load(SeqCst), 2);
    });
}

#[test]
#[should_panic(expected = "Concurrent load and mut accesses")]
fn access_unsynchronized_with_the_publisher_is_reported() {
    model(|cx| {
        // Only the tail is published up front. The cell is the one that the
        // publisher brings into existence.
        cx.publish(BASE + 8, 0);
        let cell = cx.placed::<u64>(BASE);

        let publisher = {
            let cell = cell.clone();
            cx.spawn(move |cx| {
                cx.publish(BASE, 8);
                cell.store(1, Relaxed);
            })
        };

        let reader = {
            let cell = cell.clone();
            cx.spawn(move |_| {
                cell.load(Relaxed);
            })
        };

        publisher.join();
        reader.join();
    });
}

#[test]
fn access_synchronized_with_the_publisher_is_clean() {
    model(|cx| {
        let cell = cx.placed::<u64>(BASE);
        let publisher = {
            let cell = cell.clone();
            cx.spawn(move |cx| {
                cx.publish(BASE, 8);
                cell.store(1, Relaxed);
            })
        };

        // Joining synchronizes with the publisher.
        publisher.join();

        assert_eq!(cell.load(Relaxed), 1);
    });
}

#[test]
fn narrow_cells_materialize_and_stay_distinct() {
    model(|cx| {
        cx.publish(BASE, 16);

        let byte = cx.placed::<u8>(BASE);
        let word = cx.placed::<u16>(BASE + 2);
        let dword = cx.placed::<u32>(BASE + 4);

        assert_eq!(byte.load(Relaxed), 0);
        assert_eq!(word.load(Relaxed), 0);
        assert_eq!(dword.load(Relaxed), 0);

        byte.store(0xab, Relaxed);
        word.store(0xbeef, Relaxed);
        dword.store(0xdead_beef, Relaxed);

        // Distinct addresses are distinct cells.
        assert_eq!(byte.load(Relaxed), 0xab);
        assert_eq!(word.load(Relaxed), 0xbeef);
        assert_eq!(dword.load(Relaxed), 0xdead_beef);
    });
}

#[test]
#[should_panic(expected = "not in any published region")]
fn undeclared_memory_is_rejected() {
    model(|cx| {
        cx.placed::<u64>(BASE).load(Relaxed);
    });
}

#[test]
fn a_record_of_materialized_cells_composes_and_is_zero_valid() {
    model(|cx| {
        // Two records of 64 bytes: a head, a generation, flags and a tag.
        cx.publish(BASE, 128);
        let head = |r: u64| cx.placed::<u64>(BASE + 64 * r);
        let generation = |r: u64| cx.placed::<u32>(BASE + 64 * r + 8);
        let flags = |r: u64| cx.placed::<u16>(BASE + 64 * r + 12);
        let tag = |r: u64| cx.placed::<u8>(BASE + 64 * r + 14);

        for r in 0..2 {
            assert_eq!(head(r).load(Relaxed), 0);
            assert_eq!(generation(r).load(Relaxed), 0);
            assert_eq!(flags(r).load(Relaxed), 0);
            assert_eq!(tag(r).load(Relaxed), 0);
        }

        head(0).store(0xdead_beef, Relaxed);
        generation(1).store(7, Relaxed);

        // Fields of distinct records are distinct cells.
        assert_eq!(head(0).load(Relaxed), 0xdead_beef);
        assert_eq!(head(1).load(Relaxed), 0);
        assert_eq!(generation(0).load(Relaxed), 0);
        assert_eq!(generation(1).load(Relaxed), 7);
    });
}

#[test]
fn bulk_zero_resets_the_cells_in_its_range() {
    model(|cx| {
        let cells = region(cx, 4);

        for (i, cell) in cells.iter().enumerate() {
            cell.store(i as u64 + 1, Relaxed);
        }

        // Zero only the first two cells, the way a pool recycles one record
        // out of several.
        cx.zero_exclusive(BASE, 16);

        assert_eq!(cells[0].load(Relaxed), 0);
        assert_eq!(cells[1].load(Relaxed), 0);
        // Outside the range, untouched.
        assert_eq!(cells[2].load(Relaxed), 3);
        assert_eq!(cells[3].load(Relaxed), 4);
    });
}

#[test]
#[should_panic(expected = "Causality violation")]
fn bulk_zero_racing_a_reader_is_reported() {
    model(|cx| {
        let cells = region(cx, 2);
        let peer = cells.clone();

        let t = cx.spawn(move |_| {
            peer[0].load(Relaxed);
        });

        // A bulk zero is no scheduling point, so something before it has to
        // be, and it must conflict with the reader.
        cells[0].store(1, Relaxed);

        cx.zero_exclusive(BASE, 8);

        t.join();
    });
}

#[test]
fn reset_racing_a_reader_is_admissible() {
    model(|cx| {
        let cells = region(cx, 2);
        let peer = cells.clone();

        let t = cx.spawn(move |_| {
            // Either value is legal: the reader may cross the reset or not.
            let seen = peer[0].load(Acquire);
            assert!(seen == 0 || seen == 1);
        });

        cells[0].store(1, Release);
        cx.reset(BASE, 8);

        t.join();
    });
}

#[test]
fn reset_discards_only_its_own_range() {
    model(|cx| {
        let cells = region(cx, 4);

        for (i, cell) in cells.iter().enumerate() {
            cell.store(i as u64 + 1, Relaxed);
        }

        cx.reset(BASE, 16);

        assert_eq!(cells[0].load(Relaxed), 0);
        assert_eq!(cells[1].load(Relaxed), 0);
        assert_eq!(cells[2].load(Relaxed), 3);
        assert_eq!(cells[3].load(Relaxed), 4);
    });
}

#[test]
fn pointer_cells_materialize() {
    model(|cx| {
        cx.publish(BASE, 16);
        let cell = cx.placed::<usize>(BASE);

        assert_eq!(cell.load(Relaxed), 0);
        cell.store(0x7000, Release);
        assert_ne!(cell.load(Acquire), 0);
    });
}

#[test]
fn wide_cells_materialize_and_partition_by_lane() {
    model(|cx| {
        cx.publish(BASE, 16);
        let cell = cx.placed::<u128>(BASE);

        assert_eq!(cell.load(Relaxed), 0);

        let low: u128 = u64::MAX as u128;
        let high: u128 = !low;

        cell.store_masked(low, 0xabcd, Relaxed);
        cell.store_masked(high, 0x1234 << 64, Relaxed);

        assert_eq!(cell.load_masked(low, Relaxed), 0xabcd);
        assert_eq!(cell.load_masked(high, Relaxed), 0x1234 << 64);

        assert_eq!(cell.lane_u64(0).load(Relaxed), 0xabcd);
        assert_eq!(cell.lane_u64(8).load(Relaxed), 0x1234);
        assert_eq!(cell.lane_u32(0).load(Relaxed), 0xabcd);

        cell.lane_u32(4).store(0x99, Relaxed);
        assert_eq!(cell.lane_u32(4).load(Relaxed), 0x99);
        // A lane store leaves its siblings alone.
        assert_eq!(cell.lane_u32(0).load(Relaxed), 0xabcd);
        assert_eq!(cell.lane_u64(8).load(Relaxed), 0x1234);
    });
}

// ----- coverage of the reductions -----

/// What one execution showed, whatever the order in which it was recorded.
#[derive(Clone)]
struct Trail(Arc<Mutex<Vec<String>>>);

impl Trail {
    fn new() -> Trail {
        Trail(Arc::new(Mutex::new(Vec::new())))
    }

    fn record(&self, what: String) {
        self.0.lock().unwrap().push(what);
    }

    fn fingerprint(&self) -> String {
        let mut entries = self.0.lock().unwrap().clone();
        entries.sort();
        entries.join(",")
    }
}

type Rig = fn(&Cx, &Trail);

fn explore_with(
    threads: usize,
    bound: Option<usize>,
    rig: impl Fn(&Cx, &Trail) + Send + Sync + 'static,
    reuse_objects: bool,
    sleep_sets: bool,
) -> (BTreeSet<String>, usize) {
    let seen: Arc<Mutex<BTreeSet<String>>> = Arc::new(Mutex::new(BTreeSet::new()));
    let out = seen.clone();

    let mut builder = default_builder();
    builder.threads = threads;
    builder.preemption_bound = bound;
    builder.probe = 0;
    builder.budgeted = false;
    builder.reuse_objects = reuse_objects;
    builder.sleep_sets = sleep_sets;

    let f = move |cx: &Cx| {
        let trail = Trail::new();
        rig(cx, &trail);
        out.lock().unwrap().insert(trail.fingerprint());
    };
    let cx = Cx::new();
    let stats = if threads == 1 {
        check_with(&cx, &builder, f)
    } else {
        check_sharded(&cx, &builder, 1, f)
    };

    let seen = seen.lock().unwrap().clone();
    (seen, stats.executions)
}

fn explore(threads: usize, bound: Option<usize>, rig: Rig) -> (BTreeSet<String>, usize) {
    explore_with(threads, bound, rig, true, true)
}

const BOUNDS: [Option<usize>; 4] = [None, Some(1), Some(2), Some(3)];

fn assert_reductions_preserve_coverage(name: &str, rig: Rig) {
    for bound in BOUNDS {
        let (baseline, plain) = explore(1, bound, rig);

        for threads in [2, 4, 8] {
            let (reduced, count) = explore(threads, bound, rig);

            let lost: Vec<_> = baseline.difference(&reduced).collect();
            let gained: Vec<_> = reduced.difference(&baseline).collect();

            assert!(
                lost.is_empty(),
                "{name}: bound={bound:?} threads={threads} \
                 LOST {} of {} behaviors ({count} executions vs {plain} serial): {lost:?}",
                lost.len(),
                baseline.len(),
            );

            assert!(
                gained.is_empty(),
                "{name}: bound={bound:?} threads={threads} INVENTED {} behaviors: {gained:?}",
                gained.len(),
            );
        }
    }
}

fn store_buffering_rig(cx: &Cx, log: &Trail) {
    let x = cx.word(0usize);
    let y = cx.word(0usize);

    let t = {
        let (x, y, log) = (x.clone(), y.clone(), log.clone());
        cx.spawn(move |_| {
            x.store(1, Relaxed);
            log.record(format!("t1:y={}", y.load(Relaxed)));
        })
    };

    y.store(1, Relaxed);
    log.record(format!("t0:x={}", x.load(Relaxed)));

    t.join();
}

fn message_passing_rig(cx: &Cx, log: &Trail) {
    let data = cx.word(0usize);
    let flag = cx.word(0usize);

    let writer = {
        let (data, flag) = (data.clone(), flag.clone());
        cx.spawn(move |_| {
            data.store(7, Relaxed);
            flag.store(1, Release);
        })
    };

    let disturber = {
        let flag = flag.clone();
        cx.spawn(move |_| {
            flag.store(2, Relaxed);
        })
    };

    let f = flag.load(Acquire);
    log.record(format!("t0:flag={f}"));

    if f == 1 {
        log.record(format!("t0:data={}", data.load(Relaxed)));
    }

    writer.join();
    disturber.join();
}

fn disjoint_objects_rig(cx: &Cx, log: &Trail) {
    let cells: Vec<_> = (0..3).map(|_| cx.word(0usize)).collect();

    let handles: Vec<_> = cells
        .iter()
        .enumerate()
        .skip(1)
        .map(|(i, cell)| {
            let (cell, log) = (cell.clone(), log.clone());
            cx.spawn(move |_| {
                cell.store(i, Relaxed);
                log.record(format!("t{i}:c={}", cell.load(Relaxed)));
            })
        })
        .collect();

    cells[0].store(9, Relaxed);
    log.record(format!("t0:c={}", cells[0].load(Relaxed)));

    for h in handles {
        h.join();
    }
}

fn disjoint_lanes_rig(cx: &Cx, log: &Trail) {
    let cell = cx.word(0u128);

    let t = {
        let (cell, log) = (cell.clone(), log.clone());
        cx.spawn(move |_| {
            cell.store_masked(LANE_B, 1u128 << 64, Relaxed);
            log.record(format!("t1:low={}", cell.load_masked(LANE_A, Relaxed)));
        })
    };

    cell.store_masked(LANE_A, 1, Relaxed);
    log.record(format!("t0:high={}", cell.load_masked(LANE_B, Relaxed) >> 64));

    t.join();

    log.record(format!("final:{}", cell.load(Relaxed)));
}

fn rmw_contention_rig(cx: &Cx, log: &Trail) {
    let n = cx.word(0usize);

    let t = {
        let (n, log) = (n.clone(), log.clone());
        cx.spawn(move |_| {
            log.record(format!("t1:swap={}", n.fetch_add(1, AcqRel)));
        })
    };

    log.record(format!("t0:swap={}", n.fetch_add(10, AcqRel)));

    t.join();
    log.record(format!("final:{}", n.load(Acquire)));
}

fn mutex_counter_rig(cx: &Cx, log: &Trail) {
    let lock = Lock::new(cx, 0usize);
    let free = cx.word(0usize);

    let t = {
        let (lock, free, log) = (lock.clone(), free.clone(), log.clone());
        cx.spawn(move |_| {
            free.store(1, Relaxed);
            let mut g = lock.lock();
            *g += 1;
            log.record(format!("t1:count={}", *g));
        })
    };

    {
        let mut g = lock.lock();
        *g += 10;
        log.record(format!("t0:count={}", *g));
    }

    log.record(format!("t0:free={}", free.load(Relaxed)));
    t.join();
}

fn mixed_independence_rig(cx: &Cx, log: &Trail) {
    let shared = cx.word(0usize);
    let private = cx.word(0usize);

    let racer = {
        let (shared, log) = (shared.clone(), log.clone());
        cx.spawn(move |_| {
            shared.store(1, Relaxed);
            log.record(format!("t1:shared={}", shared.load(Relaxed)));
        })
    };

    let loner = {
        let (private, log) = (private.clone(), log.clone());
        cx.spawn(move |_| {
            private.store(5, Relaxed);
            log.record(format!("t2:private={}", private.load(Relaxed)));
        })
    };

    shared.store(2, Relaxed);
    log.record(format!("t0:shared={}", shared.load(Relaxed)));

    racer.join();
    loner.join();
}

fn interleaved_cells_rig(cx: &Cx, _: &Trail) {
    let x = cx.word(0usize);
    let y = cx.word(0usize);

    let handles: Vec<_> = (0..2)
        .map(|i| {
            let (x, y) = (x.clone(), y.clone());
            cx.spawn(move |_| {
                x.store(i + 1, Relaxed);
                y.store(i + 1, Relaxed);
                x.load(Relaxed);
                y.load(Relaxed);
            })
        })
        .collect();

    for h in handles {
        h.join();
    }
}

fn lane_wake_precision_rig(cx: &Cx, log: &Trail) {
    let cell = cx.word(0u128);

    let low_writer = {
        let (cell, log) = (cell.clone(), log.clone());
        cx.spawn(move |_| {
            cell.store_masked(LANE_A, 1, Relaxed);
            log.record(format!("t1:low={}", cell.load_masked(LANE_A, Relaxed)));
        })
    };

    let high_writer = {
        let cell = cell.clone();
        cx.spawn(move |_| {
            cell.store_masked(LANE_B, 1u128 << 64, Relaxed);
        })
    };

    cell.store_masked(LANE_A, 2, Relaxed);
    log.record(format!("t0:low={}", cell.load_masked(LANE_A, Relaxed)));

    low_writer.join();
    high_writer.join();

    log.record(format!("final:{:x}", cell.load(Relaxed)));
}

fn load_kind_precision_rig(cx: &Cx, log: &Trail) {
    let x = cx.word(0usize);

    let reader = {
        let (x, log) = (x.clone(), log.clone());
        cx.spawn(move |_| {
            log.record(format!("t1:x={}", x.load(Relaxed)));
            log.record(format!("t1:x'={}", x.load(Relaxed)));
        })
    };

    let writer = {
        let x = x.clone();
        cx.spawn(move |_| {
            x.store(1, Relaxed);
        })
    };

    log.record(format!("t0:x={}", x.load(Relaxed)));

    reader.join();
    writer.join();
}

#[test]
fn coverage_store_buffering() {
    assert_reductions_preserve_coverage("store_buffering", store_buffering_rig);
}

#[test]
fn coverage_message_passing() {
    assert_reductions_preserve_coverage("message_passing", message_passing_rig);
}

#[test]
fn coverage_disjoint_objects() {
    assert_reductions_preserve_coverage("disjoint_objects", disjoint_objects_rig);
}

#[test]
fn coverage_disjoint_lanes() {
    assert_reductions_preserve_coverage("disjoint_lanes", disjoint_lanes_rig);
}

#[test]
fn coverage_rmw_contention() {
    assert_reductions_preserve_coverage("rmw_contention", rmw_contention_rig);
}

#[test]
fn coverage_mutex_counter() {
    assert_reductions_preserve_coverage("mutex_counter", mutex_counter_rig);
}

#[test]
fn coverage_mixed_independence() {
    assert_reductions_preserve_coverage("mixed_independence", mixed_independence_rig);
}

#[test]
fn coverage_lane_wake_precision() {
    assert_reductions_preserve_coverage("lane_wake_precision", lane_wake_precision_rig);
}

#[test]
fn coverage_load_kind_precision() {
    assert_reductions_preserve_coverage("load_kind_precision", load_kind_precision_rig);
}

fn rigs() -> Vec<(&'static str, Rig)> {
    vec![
        ("store_buffering", store_buffering_rig),
        ("message_passing", message_passing_rig),
        ("disjoint_lanes", disjoint_lanes_rig),
        ("rmw_contention", rmw_contention_rig),
        ("mixed_independence", mixed_independence_rig),
        ("mutex_counter", mutex_counter_rig),
        ("interleaved_cells", interleaved_cells_rig),
    ]
}

#[test]
fn sharding_walks_the_same_tree_as_a_serial_run() {
    for (name, rig) in rigs() {
        for bound in BOUNDS {
            let (_, serial) = explore_with(1, bound, rig, true, false);

            for workers in [2, 3, 4, 8] {
                let (_, n) = explore_with(workers, bound, rig, true, false);

                assert_eq!(
                    n, serial,
                    "{name}: bound={bound:?} explored {n} executions on {workers} \
                     workers but {serial} serially: lost or duplicated subtrees"
                );
            }
        }
    }
}

#[test]
fn reincarnation_walks_the_same_tree_as_virgin_stores() {
    for (name, rig) in rigs() {
        for bound in BOUNDS {
            let (virgin_seen, virgin_n) = explore_with(1, bound, rig, false, true);
            let (reused_seen, reused_n) = explore_with(1, bound, rig, true, true);

            assert_eq!(
                virgin_seen, reused_seen,
                "{name}: bound={bound:?} reused objects changed the observable behaviors"
            );
            assert_eq!(
                reused_n, virgin_n,
                "{name}: bound={bound:?} explored {reused_n} executions with reuse \
                 but {virgin_n} without"
            );
        }
    }
}

#[test]
fn sleep_sets_cover_every_behavior_of_the_full_walk() {
    let mut all = rigs();
    all.push(("disjoint_objects", disjoint_objects_rig));

    for (name, rig) in all {
        for bound in BOUNDS {
            let (full_seen, full_n) = explore_with(1, bound, rig, true, false);
            let (slept_seen, slept_n) = explore_with(1, bound, rig, true, true);

            assert_eq!(
                slept_seen, full_seen,
                "{name}: bound={bound:?} sleep sets changed the behaviors \
                 ({slept_n} executions vs {full_n} full)"
            );
            assert!(
                slept_n <= full_n + full_n / 8 + 8,
                "{name}: bound={bound:?} pruned walk took {slept_n} executions, \
                 full walk {full_n}"
            );

            for workers in [2, 4, 8] {
                let (sharded_seen, sharded_n) = explore_with(workers, bound, rig, true, true);
                assert_eq!(
                    sharded_seen, full_seen,
                    "{name}: bound={bound:?} workers={workers} sharded sleep-set walk \
                     changed the observable behaviors"
                );
                assert!(
                    sharded_n <= full_n + full_n / 8 + 8,
                    "{name}: bound={bound:?} workers={workers} sharded pruned walk took \
                     {sharded_n} executions, full walk {full_n}"
                );
            }
        }
    }
}

/// A small generator of pseudo-random numbers.
struct Rng(u64);

impl Rng {
    fn next(&mut self) -> u64 {
        let mut x = self.0;
        x ^= x << 13;
        x ^= x >> 7;
        x ^= x << 17;
        self.0 = x;
        x
    }

    fn below(&mut self, n: u64) -> u64 {
        self.next() % n
    }
}

#[derive(Clone, Copy, Debug)]
enum FuzzOp {
    Store(usize, usize),
    Load(usize),
    Rmw(usize, usize),
    WideStore(u32, u64),
    WideLoad(u32),
    Mutex(usize),
}

const ORDERS: [Order; 5] = [Relaxed, Acquire, Release, AcqRel, SeqCst];

struct FuzzCells {
    cells: Vec<Word<usize>>,
    wide: Word<u128>,
    mutex: Lock<usize>,
    log: Trail,
}

impl FuzzOp {
    fn generate(rng: &mut Rng) -> FuzzOp {
        match rng.below(12) {
            0..=2 => FuzzOp::Store(rng.below(2) as usize, 1 + rng.below(3) as usize),
            3..=5 => FuzzOp::Load(rng.below(2) as usize),
            6..=7 => FuzzOp::Rmw(rng.below(2) as usize, 1 + rng.below(3) as usize),
            8 => FuzzOp::WideStore(rng.below(2) as u32, 1 + rng.below(3)),
            9 => FuzzOp::WideLoad(rng.below(2) as u32),
            _ => FuzzOp::Mutex(1 + rng.below(3) as usize),
        }
    }

    fn order(&self, rng: &mut Rng) -> Order {
        match self {
            FuzzOp::Load(_) | FuzzOp::WideLoad(_) => {
                [Relaxed, Acquire, SeqCst][rng.below(3) as usize]
            }
            FuzzOp::Store(..) | FuzzOp::WideStore(..) => {
                [Relaxed, Release, SeqCst][rng.below(3) as usize]
            }
            _ => ORDERS[rng.below(5) as usize],
        }
    }

    fn run(self, order: Order, who: usize, on: &FuzzCells) {
        match self {
            FuzzOp::Store(c, v) => on.cells[c].store(v, order),
            FuzzOp::Load(c) => on.log.record(format!("t{who}:c{c}={}", on.cells[c].load(order))),
            FuzzOp::Rmw(c, v) => {
                on.log.record(format!("t{who}:r{c}={}", on.cells[c].fetch_add(v, order)))
            }
            FuzzOp::WideStore(lane, v) => {
                let mask = (u64::MAX as u128) << (64 * lane);
                on.wide.store_masked(mask, (v as u128) << (64 * lane), order);
            }
            FuzzOp::WideLoad(lane) => {
                let mask = (u64::MAX as u128) << (64 * lane);
                on.log.record(format!(
                    "t{who}:w{lane}={:x}",
                    on.wide.load_masked(mask, order) >> (64 * lane)
                ));
            }
            FuzzOp::Mutex(v) => {
                let mut g = on.mutex.lock();
                *g += v;
                on.log.record(format!("t{who}:m={}", *g));
            }
        }
    }
}

#[derive(Clone, Debug)]
struct FuzzProgram {
    threads: Vec<Vec<(FuzzOp, Order)>>,
}

impl FuzzProgram {
    fn generate(seed: u64) -> FuzzProgram {
        let mut rng = Rng(seed.wrapping_mul(0x9E37_79B9_7F4A_7C15) | 1);

        let threads = (0..2 + rng.below(2) as usize)
            .map(|_| {
                (0..2 + rng.below(3) as usize)
                    .map(|_| {
                        let op = FuzzOp::generate(&mut rng);
                        let order = op.order(&mut rng);
                        (op, order)
                    })
                    .collect()
            })
            .collect();

        FuzzProgram { threads }
    }

    fn run(&self, cx: &Cx, log: &Trail) {
        let on = Arc::new(FuzzCells {
            cells: (0..2).map(|_| cx.word(0usize)).collect(),
            wide: cx.word(0u128),
            mutex: Lock::new(cx, 0usize),
            log: log.clone(),
        });

        let handles: Vec<_> = self
            .threads
            .iter()
            .enumerate()
            .skip(1)
            .map(|(who, ops)| {
                let ops = ops.clone();
                let on = on.clone();
                cx.spawn(move |_| {
                    for (op, order) in ops {
                        op.run(order, who, &on);
                    }
                })
            })
            .collect();

        for &(op, order) in &self.threads[0] {
            op.run(order, 0, &on);
        }

        for h in handles {
            h.join();
        }

        log.record(format!(
            "final:{},{},{:x},{}",
            on.cells[0].load(Relaxed),
            on.cells[1].load(Relaxed),
            on.wide.load(Relaxed),
            *on.mutex.lock(),
        ));
    }
}

fn fuzz(seeds: std::ops::Range<u64>) {
    for seed in seeds {
        let program = Arc::new(FuzzProgram::generate(seed));

        let bound = [None, Some(2)][(seed % 2) as usize];
        let workers = [1, 4][(seed / 2 % 2) as usize];

        let run = |sleep: bool| {
            let program = program.clone();
            explore_with(workers, bound, move |cx, log| program.run(cx, log), true, sleep)
        };

        let (full_seen, full_n) = run(false);
        let (slept_seen, slept_n) = run(true);

        assert_eq!(
            slept_seen, full_seen,
            "seed={seed} bound={bound:?} workers={workers}: pruned walk changed the \
             behavior set ({slept_n} vs {full_n} executions)\nprogram: {:#?}",
            program,
        );
        assert!(
            slept_n <= full_n + full_n / 8 + 8,
            "seed={seed} bound={bound:?} workers={workers}: pruned walk took {slept_n} \
             executions, full walk {full_n}"
        );
    }
}

#[test]
fn fuzz_pruned_walk_matches_full_walk() {
    fuzz(0..64);
}

/// Whether the walk meets the interleaving in which the store was observed.
fn racy_rig_is_caught(threads: usize) -> bool {
    let caught = counter();
    let caught_ = caught.clone();
    let mut builder = default_builder();
    builder.threads = threads;
    builder.preemption_bound = Some(2);
    builder.probe = 0;
    builder.budgeted = false;

    let f = move |cx: &Cx| {
        let x = cx.word(0usize);

        let t = {
            let x = x.clone();
            cx.spawn(move |_| x.store(1, Relaxed))
        };

        if x.load(Relaxed) != 0 {
            bump(&caught_);
        }

        t.join();
    };
    let cx = Cx::new();
    if threads == 1 {
        check_with(&cx, &builder, f);
    } else {
        check_sharded(&cx, &builder, 16, f);
    }
    count(&caught) > 0
}

#[test]
fn reductions_still_find_a_real_bug() {
    for threads in [1, 2, 4, 8] {
        assert!(
            racy_rig_is_caught(threads),
            "threads={threads}: a model that fails on some interleaving was reported clean"
        );
    }
}

// ----- bounded exploration -----

fn bounded(bound: Option<usize>) -> Builder {
    let mut b = default_builder();
    b.preemption_bound = bound;
    b.budgeted = false;
    b.stats = true;
    b
}

/// Two writers raced against a reader: enough dependent accesses that the
/// bounded walk provably plants conservative backtrack points.
fn racy_model(log: &Arc<Mutex<BTreeSet<usize>>>) -> impl Fn(&Cx) + Send + Sync + 'static {
    let log = log.clone();

    move |cx| {
        let x = cx.word(0usize);

        let t1 = {
            let x = x.clone();
            cx.spawn(move |_| {
                x.store(1, SeqCst);
                x.store(2, SeqCst);
            })
        };
        let t2 = {
            let x = x.clone();
            cx.spawn(move |_| {
                x.fetch_add(10, SeqCst);
            })
        };

        t1.join();
        t2.join();

        log.lock().unwrap().insert(x.load(SeqCst));
    }
}

#[test]
fn conservative_attribution_invariants() {
    let log = Arc::new(Mutex::new(BTreeSet::new()));
    let stats = check(&bounded(Some(1)), racy_model(&log));

    assert!(stats.conservative <= stats.executions);
    assert!(
        stats.conservative > 0,
        "this model plants conservative points under bound 1; attribution saw none \
         (executions = {})",
        stats.executions
    );

    let log = Arc::new(Mutex::new(BTreeSet::new()));
    let unbounded = check(&bounded(None), racy_model(&log));

    assert_eq!(
        unbounded.conservative, 0,
        "conservative points cannot exist without a preemption bound"
    );
}

#[test]
fn attribution_is_behavior_preserving() {
    let with = Arc::new(Mutex::new(BTreeSet::new()));
    let stats = check(&bounded(Some(1)), racy_model(&with));

    let without = Arc::new(Mutex::new(BTreeSet::new()));
    let mut plain = bounded(Some(1));
    plain.stats = false;
    let baseline = check(&plain, racy_model(&without));

    assert_eq!(stats.executions, baseline.executions);
    assert_eq!(*with.lock().unwrap(), *without.lock().unwrap());
    assert_eq!(baseline.conservative, 0, "off means not collected");
}

#[test]
fn bound_zero_reaches_all_zero_preemption_orders() {
    let log = Arc::new(Mutex::new(BTreeSet::new()));
    let out = log.clone();

    check(&bounded(Some(0)), move |cx| {
        let x = cx.word(0usize);

        let t1 = {
            let x = x.clone();
            cx.spawn(move |_| x.store(1, SeqCst))
        };
        let t2 = {
            let x = x.clone();
            cx.spawn(move |_| x.store(2, SeqCst))
        };

        t1.join();
        t2.join();

        out.lock().unwrap().insert(x.load(SeqCst));
    });

    // One thread to completion, then the other: zero preemptions either way.
    let seen = log.lock().unwrap();
    assert_eq!(
        *seen,
        BTreeSet::from([1, 2]),
        "a 0-preemption final state was never reached under bound 0"
    );
}

// ----- odds and ends -----

#[test]
fn a_spinning_thread_yields_until_it_sees() {
    model(|cx| {
        let flag = cx.word(0u32);
        let setter = {
            let flag = flag.clone();
            cx.spawn(move |_| flag.store(1, Release))
        };
        while flag.load(Acquire) == 0 {
            cx.yield_now();
        }
        setter.join();
        assert_eq!(flag.load(Relaxed), 1);
    });
}

#[test]
fn a_masked_update_sees_and_changes_its_own_bits() {
    model(|cx| {
        let x = cx.word(0xAA_BBu32);
        let old = x.fetch_modify(0xff, |v| v + 1, AcqRel);
        assert_eq!(old, 0xBB);
        assert_eq!(x.load(Relaxed), 0xAA_BC);
        assert_eq!(x.compare_exchange_masked(0xff00, 0xAA00, 0x1100, AcqRel, Relaxed), Ok(0xAA00));
        assert_eq!(x.load(Relaxed), 0x11_BC);
    });
}

/// What a reader sees of a wide store that it meets lane by lane.
fn lanes_of_a_wide_store(coherent: bool) -> BTreeSet<(u64, u64)> {
    let seen = Arc::new(Mutex::new(BTreeSet::new()));
    let out = seen.clone();
    model(move |cx| {
        let x = cx.word(0u128);
        // Split the cell into its lanes.
        x.store_masked(LANE_A, 0, Relaxed);
        let w = {
            let x = x.clone();
            cx.spawn(move |_| x.store(1 | (1 << 64), Relaxed))
        };
        let (b, a) = if coherent {
            (x.load_coherent_lane(LANE_B, Relaxed), x.load_coherent_lane(LANE_A, Relaxed))
        } else {
            (x.load_masked(LANE_B, Relaxed), x.load_masked(LANE_A, Relaxed))
        };
        w.join();
        out.lock().unwrap().insert((a as u64, (b >> 64) as u64));
    });
    let seen = seen.lock().unwrap().clone();
    seen
}

#[test]
fn a_coherent_lane_is_never_behind_what_was_seen() {
    assert_eq!(lanes_of_a_wide_store(true), BTreeSet::from([(0, 0), (1, 0), (1, 1)]));
    assert_eq!(lanes_of_a_wide_store(false), BTreeSet::from([(0, 0), (0, 1), (1, 0), (1, 1)]));
}

#[test]
fn a_static_is_made_once_in_an_execution() {
    model(|cx| {
        let key = StaticKeyId(0x9000);
        cx.with(|w| {
            assert!(w.execution.lazy_statics.get_static(key).is_none());
            w.execution.lazy_statics.init_static(key, StaticValue::new(5));
            assert_eq!(w.execution.lazy_statics.get_static(key).unwrap().handle, 5);
        });
        let x = cx.word(0u8);
        let t = {
            let x = x.clone();
            cx.spawn(move |_| x.store(1, Relaxed))
        };
        x.store(2, Relaxed);
        t.join();
    });
}

#[test]
fn a_ceiling_on_permutations_ends_the_walk() {
    let mut builder = default_builder();
    for max in [1, 3] {
        builder.max_permutations = Some(max);
        let stats = check(&builder, |cx| interleaved_cells_rig(cx, &Trail::new()));
        assert_eq!((stats.executions, stats.threads), (max, 1));
    }

    builder.threads = 2;
    let cx = Cx::new();
    let stats = check_sharded(&cx, &builder, 1, |cx| interleaved_cells_rig(cx, &Trail::new()));
    assert!(stats.executions >= 3);
    assert_eq!(stats.threads, 2);
}

#[test]
fn sleep_sets_prune_and_say_so() {
    let mut builder = default_builder();
    builder.sleep_sets = false;
    let full = check(&builder, |cx| interleaved_cells_rig(cx, &Trail::new()));
    builder.sleep_sets = true;
    let slept = check(&builder, |cx| interleaved_cells_rig(cx, &Trail::new()));
    assert_eq!(full.pruned, 0);
    assert!(slept.pruned > 0 && slept.pruned <= slept.executions);
    assert!(slept.executions <= full.executions);
}
