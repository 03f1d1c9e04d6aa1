//! The parts of the library, one by one.

use loom::model::budget::{Budget, Grant};
use loom::model::pool::{Pool, Taken};
use loom::model::settings::{parse, Invalid, Settings};
use loom::model::{Builder, Decision, Stats, Step, Walk};
use loom::rt::branch::{Entry, Load, Schedule, Spurious, Thread};
use loom::rt::cells::{mint_id, CellIds};
use loom::rt::claims::{Claims, Frozen};
use loom::rt::lazy_static::{StaticKeyId, StaticValue, Statics};
use loom::rt::order::{acquires, is_seq_cst, releases, Order};
use loom::rt::path::checkpoint::Checkpoint;
use loom::rt::path::Path;
use loom::rt::sleep::SleepSet;
use loom::rt::thread::Action;
use loom::rt::vv::VersionVec;
use loom::sync::atomic::lane::{LaneU32Of128, LaneU32Of64, LaneU64Of128};
use loom::sync::atomic::num::{Numeric, Update};
use loom::sync::atomic::{AtomicU128, AtomicU64};
use loom::sync::condvar::WaitTimeoutResult;

// ----- version vectors -----

fn vv(lanes: &[u16]) -> VersionVec {
    let mut v = VersionVec::new();
    for (i, n) in lanes.iter().enumerate() {
        for _ in 0..*n {
            v.inc(i);
        }
    }
    v
}

#[test]
fn version_vectors_join_to_the_least_upper_bound() {
    let a = vv(&[3, 0, 2]);
    let b = vv(&[1, 4, 2]);
    let mut j = a;
    j.join(&b);
    assert_eq!((j.lane(0), j.lane(1), j.lane(2), j.lane(3)), (3, 4, 2, 0));
    assert!(a.is_le(&j) && b.is_le(&j));
    assert!(!j.is_le(&a) && !a.is_le(&b) && !b.is_le(&a));
    let mut k = b;
    k.join(&a);
    assert_eq!(j.lanes(), k.lanes());
}

#[test]
fn version_vectors_name_who_is_ahead() {
    let a = vv(&[3, 0, 2]);
    let b = vv(&[3, 4, 1]);
    assert_eq!(a.ahead(&b), Some(1));
    assert_eq!(b.ahead(&a), Some(2));
    assert_eq!(a.ahead(&a), None);
}

#[test]
fn version_vectors_are_partially_ordered() {
    let a = vv(&[1, 1]);
    let b = vv(&[1, 2]);
    let c = vv(&[2, 1]);
    assert!(a < b && a < c);
    assert!(!(b < c) && !(c < b) && b != c);
    assert!(a == vv(&[1, 1]));
    assert_eq!(b.partial_cmp(&c), None);
}

// ----- sleep sets -----

#[test]
fn sleepers_wake_when_told() {
    let mut s = SleepSet::default();
    assert!(s.is_empty());
    s.cover(0b101);
    assert!(s.contains(0) && !s.contains(1) && s.contains(2));
    s.wake(0b001);
    assert!(!s.contains(0) && s.contains(2));
    s.cover(0b010);
    s.wake_all();
    assert!(s.is_empty());
}

// ----- actions -----

#[test]
fn actions_conflict_where_one_writes_what_the_other_touches() {
    let load = Action::Load { mask: 0xff };
    let store = Action::Store { mask: 0x0f };
    let other = Action::Store { mask: 0xf00 };
    let carry = Action::Rmw { read: 0xfff, write: 0xf00 };
    assert!(load.conflicts_with(store) && store.conflicts_with(load));
    assert!(!load.conflicts_with(load));
    assert!(!load.conflicts_with(other));
    assert!(store.conflicts_with(carry) && other.conflicts_with(carry));
    assert!(!load.conflicts_with(carry), "a carried lane is only read");
    assert_eq!((carry.read_mask(), carry.write_mask(), carry.mask()), (0xfff, 0xf00, 0xfff));
}

#[test]
fn orders_acquire_and_release() {
    let all = [Order::Relaxed, Order::Release, Order::Acquire, Order::AcqRel, Order::SeqCst];
    assert_eq!(all.map(acquires), [false, false, true, true, true]);
    assert_eq!(all.map(releases), [false, true, false, true, true]);
    assert_eq!(all.map(is_seq_cst), [false, false, false, false, true]);
}

// ----- integers and lanes -----

#[test]
fn integers_come_back_from_their_bits() {
    assert_eq!((-2i8).into_u128(), u128::MAX - 1);
    assert_eq!(i8::from_u128(u128::MAX - 1), -2);
    assert_eq!(u8::from_u128(0x1ff), 0xff);
    assert_eq!(200u8.update(Update::Add, 100), 44);
    assert_eq!(3u16.update(Update::Sub, 5), 65_534);
    assert_eq!((-5i32).update(Update::Max, 3), 3);
    assert_eq!((-5i32).update(Update::Min, 3), -5);
    assert_eq!(0b1100u8.update(Update::Nand, 0b1010), 0b1111_0111);
}

#[test]
fn lanes_lie_where_they_are_aligned() {
    let offsets = |f: fn(usize) -> bool| (0..20).filter(|i| f(*i)).collect::<Vec<usize>>();
    assert_eq!(offsets(LaneU32Of128::is_aligned), vec![0, 4, 8, 12]);
    assert_eq!(offsets(LaneU64Of128::is_aligned), vec![0, 8]);
    assert_eq!(offsets(LaneU32Of64::is_aligned), vec![0, 4]);
    let wide = AtomicU128::at(3);
    assert_eq!(wide.lane_u32(12).mask(), 0xffff_ffff << 96);
    assert_eq!(wide.lane_u64(8).mask(), 0xffff_ffff_ffff_ffff << 64);
    let word = AtomicU64::at(4).lane_u32(4);
    assert_eq!((word.object, word.shift, word.mask()), (4, 32, 0xffff_ffff << 32));
}

#[test]
fn timeouts_are_told() {
    assert!(WaitTimeoutResult(true).timed_out());
    assert!(!WaitTimeoutResult(false).timed_out());
}

// ----- identities -----

#[test]
fn identities_are_minted_once() {
    let mut ids = CellIds::new();
    let (mut a, mut b) = (0, 0);
    assert_eq!(mint_id(&mut a, &mut ids), 1);
    assert_eq!(mint_id(&mut b, &mut ids), 2);
    assert_eq!(mint_id(&mut a, &mut ids), 1);
    assert_eq!((a, b), (1, 2));
}

#[test]
fn statics_live_for_one_execution() {
    let mut s = Statics::new();
    assert!(s.is_live());
    assert!(s.get_static(StaticKeyId(7)).is_none());
    s.init_static(StaticKeyId(7), StaticValue::new(70));
    s.init_static(StaticKeyId(9), StaticValue::new(90));
    assert_eq!(s.get_static(StaticKeyId(7)).unwrap().handle, 70);
    let mut dropped: Vec<u64> = s.drop().iter().map(|v| v.handle).collect();
    dropped.sort();
    assert_eq!(dropped, vec![70, 90]);
    assert!(!s.is_live());
    s.reset();
    assert!(s.is_live());
    assert!(s.get_static(StaticKeyId(7)).is_none());
}

// ----- settings -----

fn unset() -> Settings {
    Settings {
        checkpoint_interval: None,
        max_branches: None,
        location: None,
        log: None,
        max_duration: None,
        max_permutations: None,
        preemption_bound: None,
        checkpoint_file: None,
        threads: None,
        split_depth: None,
        probe: None,
        reuse_objects: None,
        sleep_sets: None,
    }
}

fn some(s: &str) -> Option<String> {
    Some(String::from(s))
}

fn built(s: &Settings, cpus: usize) -> Builder {
    match Builder::new(s, cpus) {
        Ok(b) => b,
        Err(e) => panic!("{e:?}"),
    }
}

fn refused(s: &Settings) -> Invalid {
    match Builder::new(s, 1) {
        Ok(_) => panic!("accepted"),
        Err(e) => e,
    }
}

#[test]
fn numbers_are_decimal() {
    let n = |s: &str| parse(&String::from(s), u64::MAX);
    assert_eq!(n("0"), Some(0));
    assert_eq!(n("007"), Some(7));
    assert_eq!(n("+42"), Some(42));
    assert_eq!(n("18446744073709551615"), Some(u64::MAX));
    assert_eq!(n("18446744073709551616"), None);
    assert_eq!(n("99999999999999999999999"), None);
    for bad in ["", "+", "-1", "1 ", " 1", "1a", "++1", "1_000", "0x10"] {
        assert_eq!(n(bad), None, "{bad:?}");
    }
    assert_eq!(parse(&String::from("255"), 255), Some(255));
    assert_eq!(parse(&String::from("256"), 255), None);
}

#[test]
fn a_builder_starts_from_the_defaults() {
    let b = built(&unset(), 6);
    assert_eq!((b.max_threads, b.max_branches, b.checkpoint_interval), (5, 1_000, 20_000));
    assert_eq!((b.max_permutations, b.max_duration, b.preemption_bound), (None, None, None));
    assert_eq!((b.threads, b.split_depth, b.probe), (6, 256, 1_000_000_000));
    assert!(b.checkpoint_file.is_none());
    assert!(b.budgeted && b.reuse_objects && b.sleep_sets);
    assert!(!b.expect_explicit_explore && !b.location && !b.log && !b.stats);
}

#[test]
fn a_builder_follows_the_settings() {
    let b = built(
        &Settings {
            checkpoint_interval: some("5"),
            max_branches: some("12"),
            location: some(""),
            log: some("trace"),
            max_duration: some("3"),
            max_permutations: some("99"),
            preemption_bound: some("2"),
            checkpoint_file: some("progress.json"),
            threads: some("4"),
            split_depth: some("8"),
            probe: some("250"),
            reuse_objects: some("0"),
            sleep_sets: some("00"),
        },
        6,
    );
    assert_eq!((b.checkpoint_interval, b.max_branches), (5, 12));
    assert!(b.location && b.log);
    assert_eq!(b.max_duration, Some(3_000_000_000));
    assert_eq!((b.max_permutations, b.preemption_bound), (Some(99), Some(2)));
    assert_eq!(b.checkpoint_file.as_deref(), Some("progress.json"));
    assert_eq!((b.threads, b.split_depth, b.probe), (4, 8, 250_000_000));
    assert!(!b.reuse_objects && b.sleep_sets);
}

#[test]
fn each_invalid_setting_is_named() {
    let bad = || some("many");
    assert_eq!(
        refused(&Settings { checkpoint_interval: bad(), ..unset() }),
        Invalid::CheckpointInterval
    );
    assert_eq!(refused(&Settings { max_branches: bad(), ..unset() }), Invalid::MaxBranches);
    assert_eq!(refused(&Settings { max_duration: bad(), ..unset() }), Invalid::MaxDuration);
    assert_eq!(
        refused(&Settings { max_permutations: bad(), ..unset() }),
        Invalid::MaxPermutations
    );
    assert_eq!(
        refused(&Settings { preemption_bound: bad(), ..unset() }),
        Invalid::MaxPreemptions
    );
    assert_eq!(refused(&Settings { threads: bad(), ..unset() }), Invalid::Threads);
    assert_eq!(refused(&Settings { split_depth: bad(), ..unset() }), Invalid::SplitDepth);
    assert_eq!(refused(&Settings { probe: bad(), ..unset() }), Invalid::Probe);
    // The first one counts.
    assert_eq!(
        refused(&Settings { probe: bad(), max_duration: bad(), ..unset() }),
        Invalid::MaxDuration
    );
}

#[test]
fn an_ordered_walk_has_one_worker() {
    let mut b = built(&unset(), 8);
    assert_eq!(b.workers(), 8);
    b.threads = 0;
    assert_eq!(b.workers(), 1);
    b.threads = 3;
    b.log = true;
    assert_eq!(b.workers(), 1);
    b.log = false;
    assert_eq!(b.workers(), 3);
    b.checkpoint_file("progress.json").max_branches = 7;
    assert_eq!(b.checkpoint_file.as_deref(), Some("progress.json"));
    assert_eq!((b.max_branches, b.workers()), (7, 1));
}

// ----- runs -----

#[test]
fn runs_share_the_machine() {
    let mut budget = Budget::new(8);
    let b = built(&unset(), 6);
    let first = b.plan(&mut budget);
    assert_eq!((first.workers, first.grant.extra(), first.probe), (6, 5, Some(1_000_000_000)));
    let second = b.plan(&mut budget);
    assert_eq!((second.workers, second.grant.extra()), (3, 2));
    let third = b.plan(&mut budget);
    assert_eq!((third.workers, third.grant.extra(), third.probe), (1, 0, None));
    budget.release(first.grant);
    assert_eq!(b.plan(&mut budget).workers, 6);

    let mut exact = built(&unset(), 6);
    exact.budgeted = false;
    let plan = exact.plan(&mut Budget::new(1));
    assert_eq!((plan.workers, plan.grant.extra()), (6, 0));
    assert_eq!(Grant::none().extra(), 0);
    assert_eq!(Budget::new(0).claim(3).extra(), 0);
}

fn walked(b: &Builder, n: usize) -> Walk {
    let mut walk = Walk::new();
    for i in 0..n {
        walk = walk.ran(b, i % 2 == 0);
    }
    walk
}

#[test]
fn a_serial_walk_looks_up_now_and_then() {
    let mut b = built(&unset(), 1);
    b.checkpoint_interval = 3;
    let run = Decision { store: false, step: Step::Run };
    assert_eq!(walked(&b, 0).decide(&b, 0, false), run);
    assert_eq!(walked(&b, 2).decide(&b, 0, false), run);
    assert_eq!(
        walked(&b, 1).decide(&b, 0, true),
        Decision { store: false, step: Step::HandOver }
    );
    b.checkpoint_file("progress.json");
    assert_eq!(walked(&b, 1).decide(&b, 0, false), run);
    assert_eq!(
        walked(&b, 2).decide(&b, 0, false),
        Decision { store: true, step: Step::Run }
    );
    // The ceiling is tested before every execution.
    b.max_permutations = Some(3);
    assert_eq!(
        walked(&b, 2).decide(&b, 0, false),
        Decision { store: true, step: Step::Run }
    );
    let finish = Decision { store: false, step: Step::Finish };
    assert_eq!(walked(&b, 3).decide(&b, 0, false), finish);
    assert_eq!(walked(&b, 4).decide(&b, 0, true), finish);
    b.max_permutations = Some(1);
    assert_eq!(walked(&b, 0).decide(&b, 0, false), run);
    assert_eq!(walked(&b, 1).decide(&b, 0, false), finish);
    b.max_permutations = None;
    b.max_duration = Some(10);
    assert_eq!(walked(&b, 5).decide(&b, 9, false).step, Step::Run);
    assert_eq!(walked(&b, 5).decide(&b, 10, true).step, Step::Finish);
}

fn stats(executions: usize, threads: usize, pruned: usize, conservative: usize) -> Stats {
    let mut stats = Stats::default();
    stats.executions = executions;
    stats.threads = threads;
    stats.pruned = pruned;
    stats.conservative = conservative;
    stats
}

#[test]
fn a_walk_counts_what_it_ran() {
    let mut b = built(&unset(), 1);
    assert_eq!(walked(&b, 5).stats(2), stats(5, 1, 2, 0));
    b.stats = true;
    let probe = walked(&b, 5).stats(2);
    assert_eq!(probe, stats(5, 1, 2, 3));
    assert_eq!(stats(10, 4, 1, 1).after_probe(probe), stats(15, 4, 3, 4));
    assert_eq!(Stats::default(), stats(0, 0, 0, 0));
}

#[test]
fn a_sharded_run_has_ceilings() {
    let mut b = built(&unset(), 1);
    assert!(!b.limit_reached(1_000_000, u128::MAX));
    b.max_permutations = Some(10);
    assert!(!b.limit_reached(9, 0) && b.limit_reached(10, 0));
    b.max_permutations = None;
    b.max_duration = Some(100);
    assert!(!b.limit_reached(15, 100), "the clock is only read on the cadence");
    assert!(!b.limit_reached(16, 99) && b.limit_reached(16, 100));
    assert!(Builder::donates(32) && !Builder::donates(33));
}

#[test]
fn a_bound_turns_sleep_sets_off() {
    let mut b = built(&unset(), 1);
    assert!(b.new_execution(3).sleep_sets);
    b.preemption_bound = Some(2);
    let e = b.new_execution(3);
    assert!(!e.sleep_sets && e.reuse_objects);
    assert_eq!(e.id, 3);
}

fn path() -> Path {
    Path::new(10, None, true)
}

#[test]
fn a_pool_ends_when_everybody_waits() {
    let mut pool: Pool<&str> = Pool::new(path());
    assert!(matches!(pool.take(2), Taken::Task(_)));
    assert!(matches!(pool.take(2), Taken::Wait));
    assert_eq!(pool.wanted(), 1);
    assert_eq!(pool.post(vec![path(), path()]), 2);
    assert_eq!(pool.wanted(), 0);
    pool.woken();
    assert!(matches!(pool.take(2), Taken::Task(_)));
    assert!(matches!(pool.take(2), Taken::Task(_)));
    assert!(matches!(pool.take(2), Taken::Wait));
    assert!(matches!(pool.take(2), Taken::Over));
    // Over is final.
    assert_eq!(pool.post(vec![path()]), 0);
    pool.woken();
    assert!(matches!(pool.take(2), Taken::Over));
    assert_eq!(pool.into_failure(), None);
}

#[test]
fn a_pool_keeps_the_first_failure() {
    let mut pool: Pool<&str> = Pool::new(path());
    pool.fail("first");
    pool.fail("second");
    assert!(matches!(pool.take(4), Taken::Over));
    assert_eq!(pool.into_failure(), Some("first"));

    let mut pool: Pool<&str> = Pool::new(path());
    pool.stop();
    assert!(matches!(pool.take(4), Taken::Over));
    assert_eq!(pool.into_failure(), None);
}

// ----- paths -----

fn schedule(threads: [Thread; 5]) -> Schedule {
    Schedule {
        preemptions: 0,
        initial_active: Some(0),
        threads,
        prev: None,
        exploring: true,
        conservative: 0,
        entered_conservative: false,
        yield_seam: false,
    }
}

const SEED: [Thread; 5] =
    [Thread::Active, Thread::Skip, Thread::Disabled, Thread::Disabled, Thread::Disabled];

#[test]
fn a_race_opens_the_alternative_that_the_next_step_takes() {
    let mut claims = Claims::new();
    let mut p = path();
    assert_eq!(p.branch_thread(&claims, &SEED.to_vec()), Ok((Some(0), 0)));
    assert_eq!(p.branch_thread(&claims, &SEED.to_vec()), Ok((Some(0), 0)));
    p.backtrack(&mut claims, 0, 1);
    p.backtrack(&mut claims, 0, 1);
    assert!(p.step(&mut claims));
    // The later branch is gone, and the earlier one runs the other thread.
    assert!(!p.is_traversed());
    assert_eq!(p.branch_thread(&claims, &SEED.to_vec()), Ok((Some(1), 1)));
    assert!(p.is_traversed());
    assert!(!p.step(&mut claims));
}

#[test]
fn loads_and_wakeups_are_walked_in_order() {
    let mut claims = Claims::new();
    let mut p = path();
    let mut seen = Vec::new();
    loop {
        if p.is_traversed() {
            p.push_load(&claims, &vec![4, 2]).unwrap();
        }
        let load = p.branch_load(&claims).unwrap();
        let spur = p.branch_spurious(&claims).unwrap();
        seen.push((load, spur));
        if !p.step(&mut claims) {
            break;
        }
    }
    assert_eq!(seen, vec![(4, false), (4, true), (2, false), (2, true)]);
}

#[test]
fn a_standard_mark_is_final() {
    let mut f = Frozen::new(0b10, 0b11, 0b01, 0b01, 0);
    f.open(0b10, true);
    assert!(f.is_conservative(1));
    f.open(0b10, false);
    assert!(!f.is_conservative(1));
    f.open(0b10, true);
    assert!(!f.is_conservative(1) && f.open_mask() == 0b11);
}

#[test]
fn a_split_hands_out_what_the_walk_would_take() {
    let mut claims = Claims::new();
    let mut p = path();
    p.set_split_depth(8);
    p.branch_thread(&claims, &SEED.to_vec()).unwrap();
    p.branch_thread(&claims, &SEED.to_vec()).unwrap();
    p.backtrack(&mut claims, 0, 1);
    p.backtrack(&mut claims, 1, 1);
    let mut tasks = p.split_off(&mut claims, 1);
    assert_eq!(tasks.len(), 1);
    // The task begins with the alternative; the walk no longer takes it.
    assert_eq!(tasks[0].branch_thread(&claims, &SEED.to_vec()), Ok((Some(1), 1)));
    assert!(p.step(&mut claims));
    assert_eq!(p.branch_thread(&claims, &SEED.to_vec()), Ok((Some(0), 0)));
    assert_eq!(p.branch_thread(&claims, &SEED.to_vec()), Ok((Some(1), 1)));
    assert!(!p.step(&mut claims));
    assert!(!tasks[0].step(&mut claims));
}

#[test]
fn a_split_gives_no_more_than_was_wanted() {
    let loaded = |claims: &Claims| {
        let mut p = path();
        p.set_split_depth(8);
        p.push_load(claims, &vec![6, 5, 4, 3]).unwrap();
        assert_eq!(p.branch_load(claims), Ok(6));
        p
    };
    let walked = |p: &mut Path, claims: &mut Claims| {
        let mut seen = vec![p.branch_load(claims).unwrap()];
        while p.step(claims) {
            seen.push(p.branch_load(claims).unwrap());
        }
        seen
    };
    for (wanted, shares) in [
        (0, vec![]),
        (1, vec![vec![5, 4, 3]]),
        (2, vec![vec![5], vec![4, 3]]),
        (3, vec![vec![5], vec![4], vec![3]]),
        (9, vec![vec![5], vec![4], vec![3]]),
    ] {
        let mut claims = Claims::new();
        let mut p = loaded(&claims);
        let mut tasks = p.split_off(&mut claims, wanted);
        let got: Vec<_> = tasks.iter_mut().map(|t| walked(t, &mut claims)).collect();
        assert_eq!(got, shares);
        // Without a split the values are left with the path.
        assert_eq!(p.step(&mut claims), wanted == 0);
    }

    // What is left of a schedule stays open, for whoever comes next.
    let mut claims = Claims::new();
    let mut p = path();
    p.set_split_depth(8);
    let seed =
        vec![Thread::Active, Thread::Skip, Thread::Skip, Thread::Disabled, Thread::Disabled];
    p.branch_thread(&claims, &seed).unwrap();
    p.backtrack(&mut claims, 0, 1);
    p.backtrack(&mut claims, 0, 2);
    let mut tasks = p.split_off(&mut claims, 1);
    assert_eq!(tasks.len(), 1);
    assert_eq!(tasks[0].branch_thread(&claims, &seed), Ok((Some(1), 1)));
    assert!(p.step(&mut claims));
    assert_eq!(p.branch_thread(&claims, &seed).unwrap().0, Some(2));
    assert!(!p.step(&mut claims) && !tasks[0].step(&mut claims));
}

#[test]
fn a_race_of_a_thread_that_cannot_run_opens_a_shared_branch_to_the_others() {
    let mut claims = Claims::new();
    let mut p = path();
    p.set_split_depth(8);
    let seed =
        vec![Thread::Active, Thread::Skip, Thread::Skip, Thread::Disabled, Thread::Disabled];
    p.branch_thread(&claims, &seed).unwrap();
    p.backtrack(&mut claims, 0, 1);
    let mut tasks = p.split_off(&mut claims, 1);
    assert_eq!(tasks[0].branch_thread(&claims, &seed), Ok((Some(1), 1)));
    // Thread 3 cannot run there, so whoever was passed over does.
    tasks[0].backtrack(&mut claims, 0, 3);
    assert!(p.step(&mut claims));
    assert_eq!(p.branch_thread(&claims, &seed).unwrap().0, Some(2));
    assert!(!p.step(&mut claims) && !tasks[0].step(&mut claims));
}

#[test]
fn split_walks_visit_each_leaf_once() {
    let mut claims = Claims::new();
    let mut first = path();
    first.set_split_depth(8);
    let mut queue = vec![first];
    let mut seen = Vec::new();
    while let Some(mut p) = queue.pop() {
        loop {
            if p.is_traversed() {
                p.push_load(&claims, &vec![7, 4, 2]).unwrap();
            }
            let load = p.branch_load(&claims).unwrap();
            let first = p.branch_spurious(&claims).unwrap();
            let second = p.branch_spurious(&claims).unwrap();
            seen.push((load, first, second));
            queue.extend(p.split_off(&mut claims, 1));
            if !p.step(&mut claims) {
                break;
            }
        }
    }
    seen.sort();
    let mut all = Vec::new();
    for load in [2, 4, 7] {
        for first in [false, true] {
            for second in [false, true] {
                all.push((load, first, second));
            }
        }
    }
    assert_eq!(seen, all);
}

#[test]
fn skipping_stops_the_exploration_of_an_execution() {
    let mut claims = Claims::new();
    let mut p = path();
    p.skip_branch();
    assert!(p.is_skipping());
    assert_eq!(p.branch_spurious(&claims), Ok(false));
    assert!(!p.step(&mut claims));
}

#[test]
fn exploration_can_wait_for_a_word() {
    let mut claims = Claims::new();
    let mut p = Path::new(10, None, false);
    assert_eq!(p.branch_spurious(&claims), Ok(false));
    p.explore_state();
    assert_eq!(p.branch_spurious(&claims), Ok(false));
    p.critical();
    assert_eq!(p.branch_spurious(&claims), Ok(false));
    assert!(p.step(&mut claims));
    assert_eq!(p.branch_spurious(&claims), Ok(false));
    assert_eq!(p.branch_spurious(&claims), Ok(true));
    assert!(p.is_traversed());
}

#[test]
fn a_saved_path_is_restored() {
    let mut claims = Claims::new();
    let mut p = path();
    p.branch_thread(&claims, &SEED.to_vec()).unwrap();
    p.branch_spurious(&claims).unwrap();
    p.backtrack(&mut claims, 0, 1);
    let mut q = Path::restore(p.save(), 10).unwrap();
    assert_eq!(q.pos(), p.pos());
    for path in [&mut p, &mut q] {
        assert!(path.step(&mut claims));
        assert_eq!(path.branch_thread(&claims, &SEED.to_vec()), Ok((Some(0), 0)));
        assert_eq!(path.branch_spurious(&claims), Ok(true));
        assert!(path.step(&mut claims));
        assert_eq!(path.branch_thread(&claims, &SEED.to_vec()), Ok((Some(1), 1)));
        assert!(!path.step(&mut claims));
    }
    assert!(Path::restore(p.save(), 0).is_none(), "longer than it may be");
}

#[test]
fn a_broken_checkpoint_is_refused() {
    let saved = |branches: Vec<Entry>, pos: usize| Checkpoint {
        preemption_bound: Some(1),
        pos,
        branches,
        exploring: true,
        skipping: false,
        exploring_on_start: true,
        split_depth: 0,
    };
    let ok = |s: Checkpoint| Path::restore(s, 100).is_some();
    assert!(ok(saved(vec![Entry::Schedule(schedule(SEED))], 1)));
    assert!(!ok(saved(vec![], 1)), "past the end");
    let two = [Thread::Active, Thread::Active, Thread::Skip, Thread::Skip, Thread::Skip];
    assert!(!ok(saved(vec![Entry::Schedule(schedule(two))], 0)), "two active threads");
    let stray = Schedule { prev: Some(4), ..schedule(SEED) };
    assert!(!ok(saved(vec![Entry::Schedule(stray)], 0)), "no such predecessor");
    let unpaid = Schedule { preemptions: 1, ..schedule(SEED) };
    assert!(!ok(saved(vec![Entry::Schedule(unpaid)], 0)), "preemptions out of nowhere");
    let load = Load { values: [0; 7], pos: 0, len: 8, exploring: true };
    assert!(!ok(saved(vec![Entry::Load(load)], 0)), "more candidates than stores");
    let wake = Spurious { spur: true, exploring: false };
    assert!(ok(saved(vec![Entry::Spurious(wake)], 0)));
}
