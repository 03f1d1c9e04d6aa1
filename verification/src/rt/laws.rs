//! What holds of an execution whatever the model does.
use vstd::prelude::*;

use crate::rt::access::Access;
use crate::rt::bits;
use crate::rt::branch::{
    candidates, first_slot, lemma_slot_mask, saturated, Class, Thread as Slot,
};
use crate::rt::choice::lemma_least_yielded;
use crate::rt::claims::Frozen;
use crate::rt::execution::{raced_with, ExecModel};
use crate::rt::fault::Fault;
use crate::rt::object::dependent_operations;
use crate::rt::path::laws::{
    lemma_conservative_point_is_schedule, lemma_race_point, races_keep_the_place,
};
use crate::rt::path::{entry_wf, lemma_last_schedule, lemma_marked_inv, seeded, PathModel};
use crate::rt::thread::ThreadsModel;
use crate::rt::vv::VersionVec;
use crate::rt::MAX_THREADS;

verus! {

// ----- races -----
/// Recording races moves the execution nowhere: the path keeps its branches'
/// number and its position.
proof fn lemma_raced_with(
    p: PathModel,
    c: Seq<Frozen>,
    accesses: Seq<Access>,
    vv: VersionVec,
    t: int,
    k: int,
)
    requires
        p.inv(c),
        0 <= t,
        0 <= k,
    ensures
        raced_with(p, c, accesses, vv, t, k).0.inv(raced_with(p, c, accesses, vv, t, k).1),
        raced_with(p, c, accesses, vv, t, k).0.branches.len() == p.branches.len(),
        raced_with(p, c, accesses, vv, t, k).0.pos == p.pos,
        raced_with(p, c, accesses, vv, t, k).0.capacity == p.capacity,
    decreases accesses.len() - k,
{
    if k < accesses.len() {
        if accesses[k].precedes(vv) {
            lemma_raced_with(p, c, accesses, vv, t, k + 1);
        } else {
            let (p1, c1) = p.backtracked(c, accesses[k].path_id as int, t);
            races_keep_the_place(p, c, accesses[k].path_id as int, t);
            lemma_raced_with(p1, c1, accesses, vv, t, k + 1);
        }
    }
}

pub proof fn lemma_raced_from(e: ExecModel, p: PathModel, c: Seq<Frozen>, i: int)
    requires
        p.inv(c),
        0 <= i,
    ensures
        e.raced_from(p, c, i).0.branches.len() == p.branches.len(),
        e.raced_from(p, c, i).0.pos == p.pos,
        e.raced_from(p, c, i).0.capacity == p.capacity,
    decreases e.threads.threads.len() - i,
{
    if i < e.threads.threads.len() {
        let th = e.threads.threads[i];
        match th.operation {
            Some(op) if i == e.threads.me() || e.dpor_update == Some(op.object) => {
                let deps = e.objects[op.object as int].dependent(op.action);
                lemma_raced_with(p, c, deps, th.dpor_vv, i, 0);
                let (p1, c1) = raced_with(p, c, deps, th.dpor_vv, i, 0);
                lemma_raced_from(e, p1, c1, i + 1);
            },
            _ => {
                lemma_raced_from(e, p, c, i + 1);
            },
        }
    }
}

/// A race is explored both ways: at the branch of the earlier access the racing
/// thread becomes an alternative, unless a spent preemption bound forbids it.
/// Where it cannot run there, everyone else who can does. That holds of a branch
/// that the path has to itself and of one that it shares.
pub proof fn a_race_is_explored_both_ways(p: PathModel, c: Seq<Frozen>, point: int, t: int, u: int)
    requires
        p.inv(c),
        0 <= point < p.branches.len(),
        0 <= t < MAX_THREADS,
        0 <= u < MAX_THREADS,
        p.race_point(point) matches Some(i) && !saturated(p.schedule_at(i), p.preemption_bound),
    ensures
        ({
            let i = p.race_point(point)->Some_0;
            let (q, d) = p.backtracked(c, point, t);
            let before = p.schedule_at(i).threads@;
            let after = q.schedule_at(i).threads@;
            &&& 0 <= i <= point
            &&& q.branches[i] is Schedule
            &&& i >= p.frozen.len() ==> {
                &&& before[t] != Slot::Disabled ==> after[t] != Slot::Skip
                &&& before[t] == Slot::Skip ==> after[t] == Slot::Pending
                &&& before[t] == Slot::Disabled ==> after[u] != Slot::Skip
            }
            &&& i < p.frozen.len() ==> {
                let r = c[p.frozen[i] as int];
                let s = d[p.frozen[i] as int];
                &&& bits::holds(r.enabled, t) && bits::holds(r.markable, t) ==> bits::holds(
                    s.open,
                    t,
                )
                &&& !bits::holds(r.enabled, t) && bits::holds(r.markable, u) ==> bits::holds(
                    s.open,
                    u,
                )
            }
        }),
{
    broadcast use bits::group_bits;
    broadcast use lemma_slot_mask;

    let i = p.race_point(point)->Some_0;
    crate::rt::branch::lemma_all_threads(t);
    crate::rt::branch::lemma_all_threads(u);
    lemma_race_point(p, p, point);
    let (p1, c1) = p.marked(c, i, t, false);
    lemma_marked_inv(p, c, i, t, false);
    assert(entry_wf(p.branches, i, p.preemption_bound));
    lemma_last_schedule(p.branches, i);
    if let Some(prev) = p.schedule_at(i).prev {
        lemma_conservative_point_is_schedule(p, c, prev as int);
        if let Some(j) = p.conservative_point(prev as int) {
            let (q, d) = p1.marked(c1, j, t, true);
            assert(p1.frozen == p.frozen);
            if i < p.frozen.len() {
                let id = p.frozen[i] as int;
                let at = p.frozen[j] as int;
                let mask = candidates(bits::holds(c1[at].enabled, t), t) & c1[at].markable;
                c1[at].open_is_monotone_and_idempotent(mask, true);
                assert(forall|v: int|
                    0 <= v < 16 && bits::holds(c1[id].open, v) ==> #[trigger] bits::holds(
                        d[id].open,
                        v,
                    ));
            } else {
                assert(q.branches[i] == p1.branches[i]);
            }
        }
    }
    if i < p.frozen.len() {
        let r = c[p.frozen[i] as int];
        let mask = candidates(bits::holds(r.enabled, t), t) & r.markable;
        bits::lemma_empty(mask);
    }
}

// ----- deadlocks -----
/// Where a thread is runnable or has only yielded, the search gets a thread to
/// run.
proof fn lemma_someone_is_chosen(t: ThreadsModel, i: int)
    requires
        t.running(),
        0 <= i < t.threads.len() <= MAX_THREADS,
        t.threads[i].runnable() || t.threads[i].state is Yield,
    ensures
        first_slot(seeded(t.seed()), Class::Active) is Some,
{
    let seed = t.seed();
    let n = t.threads.len() as int;
    if t.threads[i].runnable() {
        if !t.current().runnable() {
            lemma_least_yielded(t, n);
        }
        let k = t.initial()->Some_0;
        assert(seed[k] == Slot::Active);
    } else {
        assert(seed[i] == Slot::Active || seed[i] == Slot::Yield);
    }
}

/// A deadlock is reported where nothing can ever run again, and only there: at
/// the end of its path an execution that has a thread which is runnable, has
/// yielded, or waits with a timeout never deadlocks, and one that has none
/// does, unless every thread is done or the count of preemptions is at its
/// end.
pub proof fn only_a_standstill_is_a_deadlock(e: ExecModel, c: Seq<Frozen>)
    requires
        e.running(c),
        e.path.traversed(),
        !e.path.full(),
    ensures
        e.threads.can_run() || e.threads.timeouts_fire() ==> e.scheduled(c) != Err::<
            crate::rt::execution::Scheduled,
            Fault,
        >(Fault::Deadlock),
        !e.threads.can_run() && !e.threads.timeouts_fire() ==> match e.scheduled(c) {
            Ok(s) => e.threads.all_done() && s.after.threads.active is None,
            Err(f) => f == Fault::Exhausted || (f == Fault::Deadlock && !e.threads.all_done()),
        },
{
    lemma_raced_from(e, e.path, c, 0);
    let t = e.threads.rescued();
    if e.threads.can_run() {
        let i = choose|i: int|
            0 <= i < e.threads.threads.len() && ((#[trigger] e.threads.threads[i]).runnable()
                || e.threads.threads[i].state is Yield);
        lemma_someone_is_chosen(t, i);
    } else if e.threads.timeouts_fire() {
        let i = choose|i: int|
            0 <= i < e.threads.threads.len() && (#[trigger] e.threads.threads[i]).blocked_timed();
        assert(t.threads[i].runnable());
        lemma_someone_is_chosen(t, i);
    } else {
        assert(t.threads =~= e.threads.threads);
        assert(!t.current().runnable());
        lemma_least_yielded(t, t.threads.len() as int);
        assert forall|i: int| 0 <= i < t.threads.len() implies t.seed()[i] == Slot::Disabled by {
            assert(!(t.threads[i].runnable() || t.threads[i].state is Yield));
        }
        assert(first_slot(seeded(t.seed()), Class::Active) is None);
    }
}

// ----- sleep sets -----
/// Who does not sleep past the operation of `next` is in the set of those that
/// it wakes.
proof fn lemma_wake_set(t: ThreadsModel, next: int, n: int, u: int)
    requires
        0 <= n <= 16,
        0 <= u < 16,
    ensures
        bits::holds(t.wake_set(next, n), u) == (u < n && t.wakes(next, u)),
    decreases n,
{
    broadcast use bits::group_bits;

    if n > 0 {
        lemma_wake_set(t, next, n - 1, u);
    }
}

/// Nobody sleeps through a conflict. A thread that still sleeps after a
/// scheduling decision is not the one that runs, and its next operation is
/// known and does not conflict with the one that runs. It slept before, or goes
/// to sleep at this branch, where it is an open alternative below the chosen
/// one: an execution defers only downwards in the order of the threads, so no
/// two siblings defer to each other. Nobody who slept before sleeps on where a
/// timeout fires. `rt/independence.rs` shows what it is worth that operations do
/// not conflict.
pub proof fn nobody_sleeps_through_a_conflict(e: ExecModel, c: Seq<Frozen>, u: int)
    requires
        e.threads.running(),
        e.sleep_sets,
        0 <= u < e.threads.threads.len(),
    ensures
        e.scheduled(c) matches Ok(s) ==> s.after.threads.active matches Some(next) ==> (
        s.after.sleep.sleeps(u) ==> {
            &&& u != next
            &&& e.threads.threads[next as int].operation matches Some(op) ==> (
            e.threads.threads[u].operation matches Some(other) && !dependent_operations(op, other))
            &&& (e.sleep.sleeps(u) && !e.threads.timeouts_fire()) || (u < next && bits::holds(
                s.after.path.covered(s.claims, s.after.path.pos - 1, Some(next as int)),
                u,
            ))
        }),
{
    broadcast use bits::group_bits;

    if let Ok(s) = e.scheduled(c) {
        if let Some(next) = s.after.threads.active {
            let t = ThreadsModel { active: Some(next), ..e.threads.rescued() };
            lemma_wake_set(t, next as int, t.threads.len() as int, u);
        }
    }
}

/// A thread that is chosen while it sleeps, and no timeout has woken it, proves
/// the rest of the execution redundant: the execution goes on without
/// exploring anything.
pub proof fn a_chosen_sleeper_closes_its_subtree(e: ExecModel, c: Seq<Frozen>)
    requires
        e.threads.running(),
        e.sleep_sets,
    ensures
        e.scheduled(c) matches Ok(s) ==> s.after.threads.active matches Some(next) ==> (
        e.sleep.sleeps(next as int) && !e.threads.timeouts_fire() ==> s.after.path.skipping),
{
}

} // verus!
