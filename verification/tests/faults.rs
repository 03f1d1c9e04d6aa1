//! For each reason to stop an execution, an execution that stops for it.

use loom::rt::atomic::action::FULL_MASK;
use loom::rt::branch::{Entry, Spurious};
use loom::rt::claims::Claims;
use loom::rt::execution::Execution;
use loom::rt::fault::{Fault, Race};
use loom::rt::order::Order;
use loom::rt::path::checkpoint::Checkpoint;
use loom::rt::path::Path;
use loom::rt::thread::Action;
use loom::rt::wait::{Event, Phase};
use loom::sync::atomic::cell::Cell;
use loom::sync::condvar::Condvar;

fn fresh(max_branches: usize) -> (Execution, Claims) {
    (Execution::new(1, 5, max_branches, None, true), Claims::new())
}

/// An execution with a cell and a second thread, in which the first thread did
/// what `f` does and then ended.
fn after(f: impl FnOnce(&mut Execution, &mut Claims, usize)) -> (Execution, Claims, usize) {
    let (mut e, mut c) = fresh(100);
    let x = e.new_atomic(&c, 0);
    assert_eq!(e.new_thread(&c), Ok(1));
    f(&mut e, &mut c, x);
    assert_eq!(e.thread_done(&mut c), Ok(true));
    assert_eq!(e.threads.active(), Some(1));
    (e, c, x)
}

#[test]
fn a_full_path_is_a_branch_limit() {
    let (mut e, mut c) = fresh(1);
    let x = e.new_atomic(&c, 0);
    assert_eq!(e.begin(&mut c, x, Action::Load { mask: FULL_MASK }), Ok(false));
    assert_eq!(
        e.begin(&mut c, x, Action::Load { mask: FULL_MASK }),
        Err(Fault::BranchLimit)
    );
}

#[test]
fn a_path_that_does_not_fit_is_nondeterminism() {
    let saved = Checkpoint {
        preemption_bound: None,
        pos: 0,
        branches: vec![Entry::Spurious(Spurious { spur: false, exploring: true })],
        exploring: true,
        skipping: false,
        exploring_on_start: true,
        split_depth: 0,
    };
    let claims = Claims::new();
    let mut path = Path::restore(saved, 10).unwrap();
    assert_eq!(path.branch_load(&claims), Err(Fault::Nondeterministic));
    assert_eq!(path.branch_spurious(&claims), Ok(false));
}

#[test]
fn a_clock_at_its_end_is_exhausted() {
    let (mut e, c) = fresh(10);
    let x = e.new_atomic(&c, 0);
    let mut stores = 0;
    let last = loop {
        match e.store(&c, x, FULL_MASK, 1, Order::Relaxed) {
            Ok(()) => stores += 1,
            Err(f) => break f,
        }
    };
    assert_eq!(last, Fault::Exhausted);
    assert!(stores > 65_000 && stores < 65_536);
}

#[test]
fn nothing_else_happens_in_a_mutable_access() {
    let (mut e, c) = fresh(10);
    let x = e.new_atomic(&c, 7);
    assert_eq!(e.begin_mut(&c, x), Ok(7));
    assert_eq!(e.load(&c, x, FULL_MASK, Order::Relaxed, false), Err(Fault::Mutating));
    let (mut e, c) = fresh(10);
    let x = e.new_atomic(&c, 7);
    assert_eq!(e.begin_mut(&c, x), Ok(7));
    assert_eq!(e.end_mut(&c, x, 8, false), Ok(()));
    assert_eq!(e.load(&c, x, FULL_MASK, Order::Relaxed, false), Ok(8));
}

#[test]
fn unordered_accesses_are_races() {
    let race = |race| Fault::Causality { race, thread: 0 };

    let mutated = |e: &mut Execution, c: &mut Claims, x: usize| {
        e.begin_mut(c, x).unwrap();
        e.end_mut(c, x, 1, false).unwrap();
    };
    let stored = |e: &mut Execution, c: &mut Claims, x: usize| {
        e.store(c, x, FULL_MASK, 1, Order::Release).unwrap();
    };
    let loaded = |e: &mut Execution, c: &mut Claims, x: usize| {
        e.load(c, x, FULL_MASK, Order::Relaxed, false).unwrap();
    };
    let read = |e: &mut Execution, c: &mut Claims, x: usize| {
        e.unsync_load(c, x).unwrap();
    };

    let (mut e, c, x) = after(mutated);
    assert_eq!(e.load(&c, x, FULL_MASK, Order::Acquire, false), Err(race(Race::LoadMut)));
    let (mut e, c, x) = after(mutated);
    assert_eq!(e.unsync_load(&c, x), Err(race(Race::UnsyncLoadMut)));
    let (mut e, c, x) = after(stored);
    assert_eq!(e.unsync_load(&c, x), Err(race(Race::UnsyncLoadStore)));
    let (mut e, c, x) = after(mutated);
    assert_eq!(e.store(&c, x, FULL_MASK, 2, Order::Release), Err(race(Race::StoreMut)));
    let (mut e, c, x) = after(read);
    assert_eq!(e.store(&c, x, FULL_MASK, 2, Order::Release), Err(race(Race::StoreUnsyncLoad)));
    let (mut e, c, x) = after(loaded);
    assert_eq!(e.begin_mut(&c, x), Err(race(Race::MutLoad)));
    let (mut e, c, x) = after(read);
    assert_eq!(e.begin_mut(&c, x), Err(race(Race::MutUnsyncLoad)));
    let (mut e, c, x) = after(stored);
    assert_eq!(e.begin_mut(&c, x), Err(race(Race::MutStore)));
    let (mut e, c, x) = after(mutated);
    assert_eq!(e.begin_mut(&c, x), Err(race(Race::MutMut)));

    // Atomic accesses race with nothing but those.
    let (mut e, c, x) = after(stored);
    assert_eq!(e.store(&c, x, FULL_MASK, 2, Order::Relaxed), Ok(()));
}

#[test]
fn a_write_stays_within_what_is_read() {
    let (mut e, mut c) = fresh(10);
    let x = e.new_atomic(&c, 0);
    assert_eq!(
        e.begin(&mut c, x, Action::Rmw { read: 0xff, write: 0xf00 }),
        Err(Fault::WriteOutsideRead)
    );
    assert_eq!(e.begin(&mut c, x, Action::Rmw { read: 0xfff, write: 0xf00 }), Ok(false));
    // The operation itself refuses it too, before it asks for a value.
    let refused: Result<Result<u128, ()>, Fault> = e.rmw_preserving(
        &c,
        x,
        0xff,
        0xf00,
        Order::Relaxed,
        Order::Relaxed,
        |_| panic!("asked for a value"),
    );
    assert_eq!(refused, Err(Fault::WriteOutsideRead));
    assert_eq!(e.unsync_load(&c, x), Ok(0));
    assert_eq!(e.new_atomic(&c, 0), x + 1);
}

#[test]
fn an_operation_cuts_the_cell_along_its_masks() {
    let (mut e, c) = fresh(10);
    let x = e.new_atomic(&c, 0x7000);
    assert_eq!(e.store(&c, x, 0xff, 0x1ff, Order::Relaxed), Ok(()));
    assert_eq!(e.unsync_load(&c, x), Ok(0x70ff));

    // What a preserving operation carries has to come back as it was.
    let carry = |e: &mut Execution, x: usize, next: u128| {
        let r: Result<Result<u128, ()>, Fault> =
            e.rmw_preserving(&c, x, 0xffff, 0xff, Order::AcqRel, Order::Relaxed, |_| Ok(next));
        r
    };
    let y = e.new_atomic(&c, 0x1234);
    assert_eq!(carry(&mut e, y, 0x1256), Ok(Ok(0x1234)));
    assert_eq!(e.unsync_load(&c, y), Ok(0x1256));
    assert_eq!(carry(&mut e, y, 0x9999), Err(Fault::PreservedChanged));
}

#[test]
fn an_address_is_published_once() {
    let (mut e, c) = fresh(10);
    e.publish(&c, 0x1000, 0x100);
    e.publish(&c, 0x1080, 0x100);
    e.publish(&c, 0x0f00, 0x400);
    let mut ranges: Vec<(u64, u64)> =
        e.published_regions.iter().map(|r| (r.base, r.base + r.len)).collect();
    ranges.sort();
    assert_eq!(
        ranges,
        vec![(0x0f00, 0x1000), (0x1000, 0x1100), (0x1100, 0x1180), (0x1180, 0x1300)]
    );
    e.unpublish(&c, 0x1040, 0x80);
    let total: u64 = e.published_regions.iter().map(|r| r.len).sum();
    assert_eq!(total, 0x400 - 0x80);
}

#[test]
fn there_is_no_relaxed_fence() {
    let (mut e, c) = fresh(10);
    assert_eq!(e.fence(&c, Order::Relaxed), Err(Fault::RelaxedFence));
    assert_eq!(e.fence(&c, Order::SeqCst), Ok(()));
}

#[test]
fn memory_nobody_published_holds_no_cell() {
    let (mut e, c) = fresh(10);
    let cell = Cell::Materialized { addr: 0x40 };
    assert_eq!(cell.resolve(&mut e, &c), Err(Fault::NotPublished { addr: 0x40 }));
    e.publish(&c, 0x40, 8);
    assert_eq!(cell.resolve(&mut e, &c), Ok(0));
    assert_eq!(
        Cell::Materialized { addr: 0x48 }.resolve(&mut e, &c),
        Err(Fault::NotPublished { addr: 0x48 })
    );
}

#[test]
fn withdrawn_memory_holds_no_new_cell() {
    let (mut e, c) = fresh(10);
    e.publish(&c, 0x40, 16);
    e.unpublish(&c, 0x48, 8);
    assert_eq!(Cell::Materialized { addr: 0x40 }.resolve(&mut e, &c), Ok(0));
    assert_eq!(
        Cell::Materialized { addr: 0x48 }.resolve(&mut e, &c),
        Err(Fault::NotPublished { addr: 0x48 })
    );
}

#[test]
fn a_thread_that_nothing_can_wake_is_a_deadlock() {
    let (mut e, mut c) = fresh(10);
    assert_eq!(e.park(&mut c, false), Err(Fault::Deadlock));

    // A timed wait ends on its own.
    let (mut e, mut c) = fresh(10);
    assert_eq!(e.park(&mut c, true), Ok(false));

    // So does one that was woken before it began.
    let (mut e, mut c) = fresh(10);
    e.unpark(&c, 0);
    assert_eq!(e.park(&mut c, false), Ok(false));
}

#[test]
fn threads_are_limited() {
    let mut e = Execution::new(1, 2, 10, None, true);
    let c = Claims::new();
    assert_eq!(e.new_thread(&c), Ok(1));
    assert_eq!(e.new_thread(&c), Err(Fault::TooManyThreads));
}

#[test]
fn a_mutex_held_by_another_thread_is_locked() {
    let (mut e, c) = fresh(10);
    assert_eq!(e.new_thread(&c), Ok(1));
    let m = e.new_mutex(&c, Some(1));
    assert_eq!(e.lock(&c, m), Err(Fault::Locked));
    let n = e.new_mutex(&c, None);
    assert_eq!(e.lock(&c, n), Ok(()));
}

#[test]
fn a_cell_that_changed_its_name_is_corrupted() {
    let (mut e, c) = fresh(10);
    let a = Cell::Deferred { id: 1, init: 0 };
    let b = Cell::Deferred { id: 2, init: 0 };
    let object = a.resolve(&mut e, &c).unwrap();
    assert_eq!(a.confirm(&mut e, &c, object), Ok(()));
    assert_eq!(b.confirm(&mut e, &c, object), Err(Fault::Corrupted));
}

#[test]
fn nobody_sleeps_through_a_conflict() {
    let (mut e, mut c) = fresh(10);
    e.sleep_sets = true;
    let x = e.new_atomic(&c, 0);
    let m = e.new_mutex(&c, Some(1));
    assert_eq!(e.new_thread(&c), Ok(1));
    assert_eq!(e.begin_lock(&mut c, m), Ok(true));
    assert_eq!(e.threads.active(), Some(1));

    // The first thread waits for the mutex: a load elsewhere lets it sleep on.
    e.sleep.cover(0b01);
    assert_eq!(e.begin(&mut c, x, Action::Load { mask: FULL_MASK }), Ok(false));
    assert!(e.sleep.contains(0));
    assert_eq!(e.begin(&mut c, m, Action::Opaque), Ok(false));
    assert!(!e.sleep.contains(0));

    // A sleeper that runs all the same only scouts.
    assert!(!e.path.is_skipping());
    e.sleep.cover(0b10);
    assert_eq!(e.begin(&mut c, x, Action::Load { mask: FULL_MASK }), Ok(false));
    assert!(e.path.is_skipping() && !e.sleep.contains(1));
    assert_eq!(e.pruned, 1);
}

#[test]
fn a_rmw_writes_its_bits_alone() {
    let (mut e, c) = fresh(10);
    let x = e.new_atomic(&c, 0x1234);
    let rmw = |e: &mut Execution, mask: u128, answer: Result<u128, ()>| {
        e.rmw_preserving(&c, x, mask, mask, Order::AcqRel, Order::Relaxed, |_| answer)
    };
    assert_eq!(rmw(&mut e, 0xff, Ok(0x9956)), Ok(Ok(0x34)));
    assert_eq!(e.unsync_load(&c, x), Ok(0x1256));
    assert_eq!(rmw(&mut e, 0xff00, Err(())), Ok(Err(())));
    assert_eq!(e.unsync_load(&c, x), Ok(0x1256));
}

/// What a read-modify-write of the whole cell finds in the end.
fn found(e: &mut Execution, c: &Claims, x: usize) -> u128 {
    let answer: Result<Result<u128, ()>, Fault> =
        e.rmw_preserving(c, x, FULL_MASK, FULL_MASK, Order::Relaxed, Order::Relaxed, Ok);
    answer.unwrap().unwrap()
}

#[test]
fn independent_operations_give_the_same_in_either_order() {
    let (mut e, c, x) = after(|e, c, x| {
        e.store(c, x, 0xff, 0x34, Order::Relaxed).unwrap();
    });
    assert_eq!(e.load(&c, x, 0xff00, Order::Relaxed, false), Ok(0));
    assert_eq!(e.store(&c, x, 0xff00, 0x5600, Order::Relaxed), Ok(()));
    assert_eq!(found(&mut e, &c, x), 0x5634);

    let (mut e, mut c) = fresh(100);
    let x = e.new_atomic(&c, 0);
    assert_eq!(e.new_thread(&c), Ok(1));
    assert_eq!(e.yield_now(&mut c), Ok(true));
    assert_eq!(e.load(&c, x, 0xff00, Order::Relaxed, false), Ok(0));
    assert_eq!(e.store(&c, x, 0xff00, 0x5600, Order::Relaxed), Ok(()));
    assert_eq!(e.thread_done(&mut c), Ok(true));
    assert_eq!(e.store(&c, x, 0xff, 0x34, Order::Relaxed), Ok(()));
    assert_eq!(found(&mut e, &c, x), 0x5634);
}

#[test]
fn an_unnotified_timed_wait_times_out() {
    let (mut e, mut c) = fresh(100);
    let m = e.new_mutex(&c, None);
    e.lock(&c, m).unwrap();
    let condvar = Condvar::new(&mut e, &c);
    let mut wait = condvar.wait_timeout(m);
    let pending = Ok(Event::Pending { switch: false });
    assert_eq!(wait.advance(&mut e, &mut c), pending);
    // It parks, and since nothing else can run its timeout fires at once.
    assert_eq!(wait.advance(&mut e, &mut c), pending);
    assert_eq!(wait.phase, Phase::Woken);
    assert_eq!(wait.advance(&mut e, &mut c), pending);
    assert_eq!(wait.phase, Phase::Relock { timed_out: true });
    assert_eq!(wait.advance(&mut e, &mut c), Ok(Event::Finished { timed_out: true }));
}
