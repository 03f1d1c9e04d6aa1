//! The races of a decision, and the alternatives that they call for.
use vstd::prelude::*;

use crate::rt::access::Access;
use crate::rt::bits;
use crate::rt::branch::{candidates, lemma_slot_mask, saturated, Thread as Slot};
use crate::rt::claims::Frozen;
use crate::rt::execution::{raced_with, ExecModel};
use crate::rt::laws::a_race_is_explored_both_ways;
use crate::rt::path::laws::{
    lemma_conservative_point_is_schedule, lemma_race_point, races_keep_the_place,
};
use crate::rt::path::{entry_wf, lemma_last_schedule, lemma_marked_inv, PathModel};
use crate::rt::vv::VersionVec;
use crate::rt::MAX_THREADS;

verus! {

/// A race of thread `t` with an access at branch `point` is provided for: at
/// the schedule of that access the thread is among the alternatives, or, where
/// it could not run there, everyone is who could. A spent preemption bound
/// exempts.
pub open spec fn given_way(p: PathModel, c: Seq<Frozen>, point: int, t: int, u: int) -> bool {
    p.race_point(point) matches Some(i) ==> !saturated(p.schedule_at(i), p.preemption_bound) ==> {
        let slots = p.schedule_at(i).threads@;
        let r = c[p.frozen[i] as int];
        &&& i >= p.frozen.len() ==> {
            &&& slots[t] != Slot::Disabled ==> slots[t] != Slot::Skip
            &&& slots[t] == Slot::Disabled ==> slots[u] != Slot::Skip
        }
        &&& i < p.frozen.len() ==> {
            &&& bits::holds(r.enabled, t) && bits::holds(r.markable, t) ==> bits::holds(r.open, t)
            &&& !bits::holds(r.enabled, t) && bits::holds(r.markable, u) ==> bits::holds(r.open, u)
        }
    }
}

/// Only more alternatives are open.
spec fn wider_slots(a: Seq<Slot>, b: Seq<Slot>) -> bool {
    forall|v: int|
        0 <= v < MAX_THREADS ==> ((#[trigger] b[v]) == Slot::Disabled) == (a[v] == Slot::Disabled)
            && (a[v] != Slot::Skip ==> b[v] != Slot::Skip)
}

spec fn wider_record(a: Frozen, b: Frozen) -> bool {
    &&& b.enabled == a.enabled
    &&& b.markable == a.markable
    &&& forall|v: int| 0 <= v < 16 && bits::holds(a.open, v) ==> #[trigger] bits::holds(b.open, v)
}

spec fn wider_branch(p: PathModel, q: PathModel, j: int) -> bool {
    &&& (q.branches[j] is Schedule) == (p.branches[j] is Schedule)
    &&& q.branches[j] is Schedule ==> {
        let a = p.schedule_at(j);
        let b = q.schedule_at(j);
        &&& b.exploring == a.exploring
        &&& b.preemptions == a.preemptions
        &&& b.initial_active == a.initial_active
        &&& b.yield_seam == a.yield_seam
        &&& wider_slots(a.threads@, b.threads@)
    }
}

spec fn wider(p: PathModel, c: Seq<Frozen>, q: PathModel, d: Seq<Frozen>) -> bool {
    &&& q.frozen == p.frozen
    &&& q.preemption_bound == p.preemption_bound
    &&& q.branches.len() >= p.branches.len()
    &&& d.len() == c.len()
    &&& forall|j: int| 0 <= j < p.branches.len() ==> #[trigger] wider_branch(p, q, j)
    &&& forall|k: int| 0 <= k < c.len() ==> wider_record(c[k], #[trigger] d[k])
}

proof fn lemma_wider_trans(
    p: PathModel,
    c: Seq<Frozen>,
    q: PathModel,
    d: Seq<Frozen>,
    r: PathModel,
    e: Seq<Frozen>,
)
    requires
        wider(p, c, q, d),
        wider(q, d, r, e),
    ensures
        wider(p, c, r, e),
{
    assert forall|j: int| 0 <= j < p.branches.len() implies #[trigger] wider_branch(p, r, j) by {
        assert(wider_branch(p, q, j));
        assert(wider_branch(q, r, j));
        if p.branches[j] is Schedule {
            let (x, y, z) = (
                p.schedule_at(j).threads@,
                q.schedule_at(j).threads@,
                r.schedule_at(j).threads@,
            );
            assert forall|v: int| 0 <= v < MAX_THREADS implies ((#[trigger] z[v])
                == Slot::Disabled) == (x[v] == Slot::Disabled) && (x[v] != Slot::Skip ==> z[v]
                != Slot::Skip) by {
                assert((y[v] == Slot::Disabled) == (x[v] == Slot::Disabled));
            }
        }
    }
    assert forall|k: int| 0 <= k < c.len() implies wider_record(c[k], #[trigger] e[k]) by {
        assert(wider_record(c[k], d[k]));
        assert(wider_record(d[k], e[k]));
    }
}

proof fn lemma_same_race_point(p: PathModel, q: PathModel, point: int)
    requires
        point < p.branches.len() <= q.branches.len(),
        forall|j: int| 0 <= j < p.branches.len() ==> #[trigger] wider_branch(p, q, j),
    ensures
        q.race_point(point) == p.race_point(point),
        p.race_point(point) matches Some(i) ==> 0 <= i <= point && p.branches[i] is Schedule,
    decreases point + 1,
{
    if point >= 0 {
        assert(wider_branch(p, q, point));
        lemma_same_race_point(p, q, point - 1);
    }
}

/// What was provided for stays so.
proof fn lemma_still_given(
    p: PathModel,
    c: Seq<Frozen>,
    q: PathModel,
    d: Seq<Frozen>,
    point: int,
    t: int,
    u: int,
)
    requires
        p.inv(c),
        wider(p, c, q, d),
        0 <= point < p.branches.len(),
        0 <= t < MAX_THREADS,
        0 <= u < MAX_THREADS,
        given_way(p, c, point, t, u),
    ensures
        given_way(q, d, point, t, u),
{
    lemma_same_race_point(p, q, point);
    if let Some(i) = p.race_point(point) {
        assert(wider_branch(p, q, i));
        let (a, b) = (p.schedule_at(i).threads@, q.schedule_at(i).threads@);
        assert((b[t] == Slot::Disabled) == (a[t] == Slot::Disabled));
        assert((b[u] == Slot::Disabled) == (a[u] == Slot::Disabled));
        if i < p.frozen.len() {
            assert(p.frozen[i] < c.len());
            assert(wider_record(c[p.frozen[i] as int], d[p.frozen[i] as int]));
        }
    }
}

proof fn lemma_marked_wider(p: PathModel, c: Seq<Frozen>, i: int, t: int, conservative: bool)
    requires
        p.inv(c),
        0 <= i < p.branches.len(),
        p.branches[i] is Schedule,
        0 <= t,
    ensures
        wider(p, c, p.marked(c, i, t, conservative).0, p.marked(c, i, t, conservative).1),
{
    broadcast use bits::group_bits;
    broadcast use lemma_slot_mask;

    let (q, d) = p.marked(c, i, t, conservative);
    let s = p.schedule_at(i);
    assert forall|k: int| 0 <= k < c.len() implies wider_record(c[k], #[trigger] d[k]) by {
        if i < p.frozen.len() && k == p.frozen[i] && t < MAX_THREADS {
            let cand = candidates(bits::holds(c[k].enabled, t), t) & c[k].markable;
            c[k].open_is_monotone_and_idempotent(cand, conservative);
        }
    }
    assert forall|j: int| 0 <= j < p.branches.len() implies #[trigger] wider_branch(p, q, j) by {
        if j == i && i >= p.frozen.len() && t < MAX_THREADS && !saturated(s, p.preemption_bound) {
            let n = s.marked(t, conservative);
            assert(q.schedule_at(i) == n);
            assert forall|v: int| 0 <= v < MAX_THREADS implies ((#[trigger] n.threads@[v])
                == Slot::Disabled) == (s.threads@[v] == Slot::Disabled) && (s.threads@[v]
                != Slot::Skip ==> n.threads@[v] != Slot::Skip) by {}
        }
    }
}

proof fn lemma_backtracked_wider(p: PathModel, c: Seq<Frozen>, point: int, t: int)
    requires
        p.inv(c),
        0 <= point,
        0 <= t,
    ensures
        wider(p, c, p.backtracked(c, point, t).0, p.backtracked(c, point, t).1),
{
    if point < p.branches.len() {
        lemma_race_point(p, p, point);
        if let Some(i) = p.race_point(point) {
            let (p1, c1) = p.marked(c, i, t, false);
            lemma_marked_inv(p, c, i, t, false);
            lemma_marked_wider(p, c, i, t, false);
            assert(entry_wf(p.branches, i, p.preemption_bound));
            lemma_last_schedule(p.branches, i);
            if let Some(prev) = p.schedule_at(i).prev {
                lemma_conservative_point_is_schedule(p, c, prev as int);
                if let Some(j) = p.conservative_point(prev as int) {
                    lemma_marked_wider(p1, c1, j, t, true);
                    let (q, d) = p1.marked(c1, j, t, true);
                    lemma_wider_trans(p, c, p1, c1, q, d);
                }
            }
        }
    }
}

proof fn lemma_raced_with(
    p: PathModel,
    c: Seq<Frozen>,
    accesses: Seq<Access>,
    vv: VersionVec,
    t: int,
    k: int,
    m: int,
    u: int,
)
    requires
        p.inv(c),
        0 <= t < MAX_THREADS,
        0 <= u < MAX_THREADS,
        0 <= k,
    ensures
        ({
            let (q, d) = raced_with(p, c, accesses, vv, t, k);
            &&& q.inv(d)
            &&& wider(p, c, q, d)
            &&& q.branches.len() == p.branches.len()
            &&& k <= m < accesses.len() && !accesses[m].precedes(vv) && accesses[m].path_id
                < p.branches.len() ==> given_way(q, d, accesses[m].path_id as int, t, u)
        }),
    decreases accesses.len() - k,
{
    if k < accesses.len() {
        if accesses[k].precedes(vv) {
            lemma_raced_with(p, c, accesses, vv, t, k + 1, m, u);
        } else {
            let point = accesses[k].path_id as int;
            let (p1, c1) = p.backtracked(c, point, t);
            races_keep_the_place(p, c, point, t);
            lemma_backtracked_wider(p, c, point, t);
            lemma_raced_with(p1, c1, accesses, vv, t, k + 1, m, u);
            let (q, d) = raced_with(p, c, accesses, vv, t, k);
            lemma_wider_trans(p, c, p1, c1, q, d);
            if m == k && point < p.branches.len() {
                lemma_same_race_point(p, p1, point);
                if let Some(i) = p.race_point(point) {
                    assert(wider_branch(p, p1, i));
                    if !saturated(p.schedule_at(i), p.preemption_bound) {
                        a_race_is_explored_both_ways(p, c, point, t, u);
                        let (a, b) = (p.schedule_at(i).threads@, p1.schedule_at(i).threads@);
                        assert((b[t] == Slot::Disabled) == (a[t] == Slot::Disabled));
                        if i < p.frozen.len() {
                            let id = p.frozen[i] as int;
                            assert(p.frozen[i] < c.len());
                            assert(wider_record(c[id], c1[id]));
                        }
                    }
                }
                assert(given_way(p1, c1, point, t, u));
                lemma_still_given(p1, c1, q, d, point, t, u);
            }
        }
    }
}

proof fn lemma_raced_from(
    e: ExecModel,
    p: PathModel,
    c: Seq<Frozen>,
    k: int,
    i: int,
    m: int,
    u: int,
)
    requires
        p.inv(c),
        e.threads.threads.len() <= MAX_THREADS,
        0 <= k,
        0 <= u < MAX_THREADS,
    ensures
        ({
            let (q, d) = e.raced_from(p, c, k);
            &&& q.inv(d)
            &&& wider(p, c, q, d)
            &&& q.branches.len() == p.branches.len()
            &&& k <= i < e.threads.threads.len() ==> (e.threads.threads[i].operation matches Some(
                op,
            ) ==> (i == e.threads.me() || e.dpor_update == Some(op.object) ==> {
                let found = e.objects[op.object as int].dependent(op.action);
                0 <= m < found.len() && !found[m].precedes(e.threads.threads[i].dpor_vv)
                    && found[m].path_id < p.branches.len() ==> given_way(
                    q,
                    d,
                    found[m].path_id as int,
                    i,
                    u,
                )
            }))
        }),
    decreases e.threads.threads.len() - k,
{
    if k < e.threads.threads.len() {
        let th = e.threads.threads[k];
        let (q, d) = e.raced_from(p, c, k);
        match th.operation {
            Some(op) if k == e.threads.me() || e.dpor_update == Some(op.object) => {
                let found = e.objects[op.object as int].dependent(op.action);
                lemma_raced_with(p, c, found, th.dpor_vv, k, 0, m, u);
                let (p1, c1) = raced_with(p, c, found, th.dpor_vv, k, 0);
                lemma_raced_from(e, p1, c1, k + 1, i, m, u);
                lemma_wider_trans(p, c, p1, c1, q, d);
                if i == k && 0 <= m < found.len() && !found[m].precedes(th.dpor_vv)
                    && found[m].path_id < p.branches.len() {
                    lemma_still_given(p1, c1, q, d, found[m].path_id as int, k, u);
                }
            },
            _ => {
                lemma_raced_from(e, p, c, k + 1, i, m, u);
            },
        }
    }
}

/// Every race is given way to. Where the operation that a thread is about to
/// perform is checked by a decision, because the thread has just run or because
/// the last decision recorded an access to its object, each access that it
/// depends on and is not ordered after is provided for when the decision is
/// made: the execution in which the thread goes first is open.
pub proof fn every_race_is_given_way(e: ExecModel, c: Seq<Frozen>, i: int, found: Access, u: int)
    requires
        e.running(c),
        0 <= i < e.threads.threads.len(),
        0 <= u < MAX_THREADS,
        e.threads.threads[i].operation matches Some(op) && {
            &&& i == e.threads.me() || e.dpor_update == Some(op.object)
            &&& e.objects[op.object as int].dependent(op.action).contains(found)
        },
        !found.precedes(e.threads.threads[i].dpor_vv),
        found.path_id < e.path.branches.len(),
    ensures
        e.scheduled(c) matches Ok(s) ==> given_way(
            s.after.path,
            s.claims,
            found.path_id as int,
            i,
            u,
        ),
{
    let op = e.threads.threads[i].operation->Some_0;
    let all = e.objects[op.object as int].dependent(op.action);
    let m = choose|m: int| 0 <= m < all.len() && all[m] == found;
    lemma_raced_from(e, e.path, c, 0, i, m, u);
    let (p, d) = e.raced_from(e.path, c, 0);
    if let Ok(s) = e.scheduled(c) {
        let q = s.after.path;
        assert forall|j: int| 0 <= j < p.branches.len() implies #[trigger] wider_branch(
            p,
            q,
            j,
        ) by {
            assert(q.branches[j] == p.branches[j]);
        }
        lemma_still_given(p, d, q, s.claims, found.path_id as int, i, u);
    }
}

} // verus!
