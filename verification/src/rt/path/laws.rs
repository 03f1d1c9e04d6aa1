//! What holds of a path whatever is done to it.
use vstd::prelude::*;

use super::split::{handouts, pending_from, shares, Fixed, Split};
use super::{
    entry_wf, last_schedule, lemma_conservative_point, lemma_last_schedule, lemma_marked_inv,
    mark_is_idempotent, PathModel,
};
use crate::rt::bits;
use crate::rt::branch::{
    candidates, first_slot, lemma_slot_mask, saturated, slot_mask, Class, Entry, Schedule, Slots,
    Thread,
};
use crate::rt::claims::Frozen;
use crate::rt::{MAX_ATOMIC_HISTORY, MAX_THREADS};

verus! {

/// A preemption bound is never exceeded: the choices that lead through any
/// branch of a valid path cost at most the bound.
pub proof fn preemptions_stay_within_the_bound(p: PathModel, c: Seq<Frozen>, i: int)
    requires
        p.inv(c),
        0 <= i < p.branches.len(),
        p.branches[i] is Schedule,
    ensures
        p.preemption_bound matches Some(max) ==> p.schedule_at(i).cost() <= max,
{
    assert(entry_wf(p.branches, i, p.preemption_bound));
}

/// An execution defers to a sibling only without a preemption bound, and only
/// to siblings canonically below its own choice.
pub proof fn deference_follows_the_canonical_order(
    p: PathModel,
    c: Seq<Frozen>,
    seed: Seq<Thread>,
    t: int,
)
    requires
        p.inv(c),
        super::seed_wf(seed),
        0 <= t < 16,
    ensures
        p.thread_branch(c, seed) matches Ok((q, chosen, covered)) ==> {
            &&& p.preemption_bound is Some ==> covered == 0
            &&& bits::holds(covered, t) ==> chosen is Some && t < chosen->Some_0
        },
{
    broadcast use bits::group_bits;

    if let Ok((q, chosen, covered)) = p.thread_branch(c, seed) {
        if let Some(k) = chosen {
            bits::lemma_under(k, t);
        }
    }
}

pub proof fn lemma_race_point(p: PathModel, q: PathModel, point: int)
    requires
        point < p.branches.len(),
        q.branches.len() == p.branches.len(),
        forall|j: int|
            #![trigger q.branches[j]]
            #![trigger p.branches[j]]
            0 <= j < p.branches.len() ==> {
                &&& (q.branches[j] is Schedule) == (p.branches[j] is Schedule)
                &&& q.branches[j] is Schedule ==> q.schedule_at(j).exploring == p.schedule_at(
                    j,
                ).exploring
            },
    ensures
        q.race_point(point) == p.race_point(point),
        p.race_point(point) matches Some(i) ==> 0 <= i <= point && p.branches[i] is Schedule,
    decreases point + 1,
{
    if point >= 0 {
        assert((q.branches[point] is Schedule) == (p.branches[point] is Schedule));
        lemma_race_point(p, q, point - 1);
    }
}

/// A mark made twice is the mark made once, whatever was marked on another
/// branch in between.
proof fn lemma_mark_again(
    p: PathModel,
    c: Seq<Frozen>,
    i: int,
    t: int,
    conservative: bool,
    q: PathModel,
    d: Seq<Frozen>,
)
    requires
        p.inv(c),
        q.inv(d),
        0 <= i < p.branches.len(),
        p.branches[i] is Schedule,
        0 <= t,
        q.preemption_bound == p.preemption_bound,
        q.frozen == p.frozen,
        c.len() == d.len(),
        ({
            let (p1, c1) = p.marked(c, i, t, conservative);
            &&& q.branches.len() == p1.branches.len()
            &&& q.branches[i] == p1.branches[i]
            &&& i < p.frozen.len() ==> d[p.frozen[i] as int] == c1[p.frozen[i] as int]
        }),
    ensures
        q.marked(d, i, t, conservative) == (q, d),
{
    let s = p.schedule_at(i);
    if t >= MAX_THREADS || saturated(s, p.preemption_bound) {
    } else if i < p.frozen.len() {
        let id = p.frozen[i] as int;
        let mask = candidates(bits::holds(c[id].enabled, t), t) & c[id].markable;
        c[id].open_is_monotone_and_idempotent(mask, conservative);
        assert(d.update(id, d[id]) =~= d);
    } else {
        mark_is_idempotent(s, t, conservative);
        super::mark_keeps_the_choice(s, t, conservative);
        assert(q.branches.update(i, q.branches[i]) =~= q.branches);
    }
}

/// Recording a race keeps a path valid and where it is.
pub proof fn races_keep_the_place(p: PathModel, c: Seq<Frozen>, point: int, t: int)
    requires
        p.inv(c),
        0 <= point,
        0 <= t,
    ensures
        ({
            let (q, d) = p.backtracked(c, point, t);
            &&& q.inv(d)
            &&& q.branches.len() == p.branches.len()
            &&& q.pos == p.pos
            &&& q.capacity == p.capacity
            &&& q.frozen == p.frozen
        }),
{
    if point < p.branches.len() {
        lemma_race_point(p, p, point);
        if let Some(i) = p.race_point(point) {
            let (p1, c1) = p.marked(c, i, t, false);
            lemma_marked_inv(p, c, i, t, false);
            assert(entry_wf(p.branches, i, p.preemption_bound));
            lemma_last_schedule(p.branches, i);
            if let Some(prev) = p.schedule_at(i).prev {
                lemma_conservative_point(p, c, p1, prev as int);
                lemma_conservative_point_is_schedule(p, c, prev as int);
                if let Some(j) = p.conservative_point(prev as int) {
                    lemma_marked_inv(p1, c1, j, t, true);
                }
            }
        }
    }
}

/// Recording the same race again changes nothing.
pub proof fn backtrack_is_idempotent(p: PathModel, c: Seq<Frozen>, point: int, t: int)
    requires
        p.inv(c),
        0 <= point,
        0 <= t,
    ensures
        ({
            let (q, d) = p.backtracked(c, point, t);
            q.backtracked(d, point, t) == (q, d)
        }),
{
    let (q, d) = p.backtracked(c, point, t);
    if point < p.branches.len() {
        lemma_race_point(p, p, point);
        if let Some(i) = p.race_point(point) {
            let (p1, c1) = p.marked(c, i, t, false);
            lemma_marked_inv(p, c, i, t, false);
            lemma_race_point(p, p1, point);
            assert(entry_wf(p.branches, i, p.preemption_bound));
            lemma_last_schedule(p.branches, i);
            let prev = p.schedule_at(i).prev;
            let extra = if prev is Some && p.preemption_bound is Some {
                p.conservative_point(prev->Some_0 as int)
            } else {
                None
            };
            if prev is Some {
                lemma_conservative_point(p, c, p1, prev->Some_0 as int);
                lemma_conservative_point_is_schedule(p, c, prev->Some_0 as int);
            }
            if let Some(j) = extra {
                lemma_marked_inv(p1, c1, j, t, true);
                lemma_race_point(p1, q, point);
                lemma_conservative_point(p1, c1, q, prev->Some_0 as int);
                if i < p.frozen.len() {
                    assert(p.frozen[i] != p.frozen[j]);
                }
                lemma_mark_again(p, c, i, t, false, q, d);
                lemma_mark_again(p1, c1, j, t, true, q, d);
            } else {
                lemma_mark_again(p, c, i, t, false, p1, c1);
            }
        }
    }
}

pub proof fn lemma_conservative_point_is_schedule(p: PathModel, c: Seq<Frozen>, i: int)
    requires
        p.inv(c),
        0 <= i < p.branches.len(),
        p.branches[i] is Schedule,
    ensures
        p.conservative_point(i) matches Some(j) ==> 0 <= j <= i && p.branches[j] is Schedule,
    decreases i,
{
    assert(entry_wf(p.branches, i, p.preemption_bound));
    lemma_last_schedule(p.branches, i);
    if let Some(prev) = p.schedule_at(i).prev {
        lemma_conservative_point_is_schedule(p, c, prev as int);
    }
}

/// The choice that a branch stands for.
pub enum Choice {
    Thread(Option<int>),
    Value(int),
    Spurious(bool),
}

pub open spec fn choice_of(e: Entry) -> Choice {
    match e {
        Entry::Schedule(s) => Choice::Thread(s.active()),
        Entry::Load(l) => Choice::Value(l.pos as int),
        Entry::Spurious(s) => Choice::Spurious(s.spur),
    }
}

pub proof fn lemma_next_point(p: PathModel, c: Seq<Frozen>, n: int)
    ensures
        p.next_point(c, n) matches Some(i) ==> 0 <= i < n && p.next_choice(c, i) is Some,
    decreases n,
{
    if n > 0 && !(p.next_choice(c, n - 1) is Some) {
        lemma_next_point(p, c, n - 1);
    }
}

/// A step replays a prefix of the path unchanged and then makes a choice that
/// was not made before: at a branch of its own the path takes another
/// alternative, and at a shared branch one that nobody had claimed.
pub proof fn step_takes_a_new_choice(p: PathModel, c: Seq<Frozen>)
    requires
        p.inv(c),
    ensures
        p.stepped(c) matches Some((q, d)) ==> {
            let i = q.branches.len() - 1;
            &&& 0 <= i < p.branches.len()
            &&& q.branches.take(i) == p.branches.take(i)
            &&& if i < p.frozen.len() {
                let id = p.frozen[i] as int;
                choice_of(q.branches[i]) matches Choice::Thread(Some(t)) && bits::holds(
                    c[id].open,
                    t,
                ) && !bits::holds(c[id].claimed, t) && bits::holds(d[id].claimed, t)
            } else {
                choice_of(q.branches[i]) != choice_of(p.branches[i])
            }
        },
{
    let n = p.branches.len() as int;
    lemma_next_point(p, c, n);
    if let Some((q, d)) = p.stepped(c) {
        let i = p.next_point(c, n)->Some_0;
        super::lemma_stepped_inv(p, c, i);
        assert(q.branches.take(i) =~= p.branches.take(i));
        let cut = p.branches.take(i + 1);
        assert(entry_wf(p.branches, i, p.preemption_bound));
        assert(super::same_shape(p.branches, cut, i));
        super::lemma_entry_wf_same(p.branches, cut, i, p.preemption_bound);
        if i < p.frozen.len() {
            let id = p.frozen[i] as int;
            broadcast use bits::group_bits;

            c[id].claim_takes_what_nobody_holds();
            let t = bits::first(c[id].free())->Some_0;
            bits::lemma_first(c[id].free());
            assert(c[id].wf());
            assert(c[id].origin@ == super::origin_of(p.branches[i], p.preemption_bound));
            bits::lemma_empty(c[id].open);
            bits::lemma_empty(c[id].free());
            super::lemma_fixed_on(
                p.schedule_at(i),
                t,
                bits::holds(c[id].conservative, t),
                cut,
                p.preemption_bound,
            );
        } else if let Entry::Schedule(s) = p.branches[i] {
            super::lemma_activated(s, cut, p.preemption_bound);
            let t = first_slot(s.threads, Class::Pending)->Some_0;
            assert(s.threads@[t] == Thread::Pending);
            if let Some(a) = s.active() {
                assert(s.threads@[a] == Thread::Active);
            }
        }
    }
}

/// The attribution of executions to the preemption bound is clean.
pub open spec fn unattributed(p: PathModel, c: Seq<Frozen>) -> bool {
    &&& forall|i: int|
        #![trigger p.branches[i]]
        0 <= i < p.branches.len() && p.branches[i] is Schedule ==> {
            &&& p.schedule_at(i).conservative == 0
            &&& !p.schedule_at(i).entered_conservative
        }
    &&& forall|i: int| 0 <= i < c.len() ==> (#[trigger] c[i]).conservative == 0
}

/// Without a preemption bound nothing is ever attributed to it, neither by a
/// race nor by a step.
pub proof fn only_a_bound_attributes(p: PathModel, c: Seq<Frozen>, point: int, t: int)
    requires
        p.inv(c),
        p.preemption_bound is None,
        unattributed(p, c),
        0 <= point,
        0 <= t,
    ensures
        ({
            let (q, d) = p.backtracked(c, point, t);
            unattributed(q, d)
        }),
        p.stepped(c) matches Some((q, d)) ==> unattributed(q, d),
{
    broadcast use bits::group_bits;

    assert forall|m: u16| #[trigger] (0u16 & !m) == 0 by {
        assert(0u16 & !m == 0) by (bit_vector);
    }
    if point < p.branches.len() {
        lemma_race_point(p, p, point);
        if let Some(i) = p.race_point(point) {
            let (q, d) = p.marked(c, i, t, false);
            lemma_marked_inv(p, c, i, t, false);
            assert(unattributed(q, d));
        }
    }
    let n = p.branches.len() as int;
    lemma_next_point(p, c, n);
    if let Some((q, d)) = p.stepped(c) {
        let i = p.next_point(c, n)->Some_0;
        assert forall|j: int|
            #![trigger q.branches[j]]
            0 <= j < q.branches.len() && q.branches[j] is Schedule implies {
            &&& q.schedule_at(j).conservative == 0
            &&& !q.schedule_at(j).entered_conservative
        } by {
            if j < i {
                assert(q.branches[j] == p.branches[j]);
            } else if i < p.frozen.len() {
                let id = p.frozen[i] as int;
                assert(c[id].conservative == 0);
                assert(c[id].wf());
                assert(c[id].origin@ == super::origin_of(p.branches[i], p.preemption_bound));
                bits::lemma_first(c[id].free());
                bits::lemma_empty(c[id].open);
                assert(p.branches[i] is Schedule);
            } else {
                assert(p.branches[i] is Schedule);
            }
        }
    }
}

proof fn lemma_handed_claims(s: Split, fixed: Seq<Fixed>, k: int, t: int)
    requires
        s.inv(),
        s.path.frozen.len() > 0,
        0 <= k <= fixed.len(),
        0 <= t < 16,
        forall|j: int|
            0 <= j < fixed.len() ==> super::split::fits(
                s.path.branches[s.path.frozen.len() - 1],
                #[trigger] fixed[j],
                s.path.preemption_bound,
            ),
    ensures
        ({
            let id = s.path.frozen.last() as int;
            let r = s.claims[id];
            let n = s.handed_all(fixed, k).claims[id];
            &&& n.open == r.open
            &&& bits::holds(r.claimed, t) ==> bits::holds(n.claimed, t)
            &&& (exists|j: int| k <= j < fixed.len() && #[trigger] fixed[j] == Fixed::Thread(
                t as usize,
            )) ==> bits::holds(n.claimed, t)
        }),
    decreases fixed.len() - k,
{
    broadcast use bits::group_bits;

    let id = s.path.frozen.last() as int;
    if k < fixed.len() {
        let point = s.path.frozen.len() - 1;
        assert(super::split::fits(s.path.branches[point], fixed[k], s.path.preemption_bound));
        super::split::lemma_handed_inv(s, point, fixed[k]);
        let n = s.handed(point, fixed[k]);
        lemma_handed_claims(n, fixed, k + 1, t);
        if let Fixed::Thread(u) = fixed[k] {
            bits::lemma_or(s.claims[id].claimed, bits::only(u as int), t);
        }
    }
}

proof fn lemma_pending_is_listed(s: Slots, i: int, t: int)
    requires
        0 <= i <= t < MAX_THREADS,
        s@[t] == Thread::Pending,
    ensures
        exists|k: int|
            0 <= k < pending_from(s, i).len() && #[trigger] pending_from(s, i)[k] == Fixed::Thread(
                t as usize,
            ),
    decreases t - i,
{
    let all = pending_from(s, i);
    if i == t {
        assert(all[0] == Fixed::Thread(t as usize));
    } else {
        lemma_pending_is_listed(s, i + 1, t);
        let rest = pending_from(s, i + 1);
        let k = choose|k: int| 0 <= k < rest.len() && #[trigger] rest[k] == Fixed::Thread(t as usize);
        if s@[i] == Thread::Pending {
            assert(all[k + 1] == rest[k]);
        } else {
            assert(all[k] == rest[k]);
        }
    }
}

/// Freezing a branch changes who explores its alternatives, never which
/// alternatives exist: the record opens exactly what the branch had open, there
/// are as many tasks as alternatives or as were wanted, and with enough of them
/// nothing is left open that nobody holds.
pub proof fn freezing_hands_out_the_alternatives(s: Split, wanted: int)
    requires
        s.inv(),
        s.path.frozen.len() < s.path.branches.len(),
        s.claims.len() <= usize::MAX,
        s.tasks.len() < wanted,
    ensures
        ({
            let e = s.path.branches[s.path.frozen.len() as int];
            let n = s.frozen_next(wanted);
            let r = n.claims[s.claims.len() as int];
            let all: int = (s.tasks.len() + handouts(e).len()) as int;
            &&& n.path.frozen == s.path.frozen.push(s.claims.len() as usize)
            &&& n.tasks.len() == if all <= wanted {
                all
            } else {
                wanted
            }
            &&& all <= wanted ==> r.free() == 0
            &&& e matches Entry::Schedule(sched) ==> (sched.exploring ==> r.open == slot_mask(
                sched.threads,
                Class::Open,
            ))
        }),
{
    broadcast use bits::group_bits;
    broadcast use lemma_slot_mask;

    let i = s.path.frozen.len() as int;
    let e = s.path.branches[i];
    let id = s.claims.len() as int;
    let mid = s.sealed_next();
    let n = s.frozen_next(wanted);
    let h = shares(e, wanted - s.tasks.len());
    super::split::lemma_sealed_inv(s);
    super::split::lemma_frozen_next_keeps(s, wanted);
    super::split::lemma_handed_all_keeps(mid, h, 0);
    assert(entry_wf(s.path.branches, i, s.path.preemption_bound));
    super::split::lemma_shares_fit(
        s.path.branches,
        i,
        s.path.preemption_bound,
        wanted - s.tasks.len(),
    );
    let r0 = mid.claims[id];
    let r = n.claims[id];
    lemma_handed_claims(mid, h, 0, 0);
    assert(r.open == r0.open);
    if s.tasks.len() + handouts(e).len() <= wanted {
        assert forall|t: int| 0 <= t < 16 implies !#[trigger] bits::holds(r.free(), t) by {
            lemma_handed_claims(mid, h, 0, t);
            if bits::holds(r.open, t) && !bits::holds(r0.claimed, t) {
                let sched = e->Schedule_0;
                assert(e is Schedule && sched.exploring);
                assert(sched.threads@[t] == Thread::Pending);
                lemma_pending_is_listed(sched.threads, 0, t);
            }
        }
        bits::lemma_empty(r.free());
    }
}

/// Branch `i` has no alternative left: a shared one has all its open
/// alternatives claimed, and one of the path's own has none pending, no later
/// store to read, and has woken spuriously if it may.
pub open spec fn exhausted(p: PathModel, c: Seq<Frozen>, i: int) -> bool {
    if i < p.frozen.len() {
        c[p.frozen[i] as int].free() == 0
    } else {
        match p.branches[i] {
            Entry::Schedule(s) => s.exploring ==> forall|t: int|
                0 <= t < MAX_THREADS ==> (#[trigger] s.threads@[t]) != Thread::Pending,
            Entry::Load(l) => l.exploring ==> l.pos + 1 >= l.len,
            Entry::Spurious(s) => s.exploring ==> s.spur,
        }
    }
}

proof fn lemma_exhausted(p: PathModel, c: Seq<Frozen>, i: int)
    requires
        p.next_choice(c, i) is None,
        0 <= i,
    ensures
        exhausted(p, c, i),
{
    broadcast use bits::group_bits;

    if i < p.frozen.len() {
        bits::lemma_first(c[p.frozen[i] as int].free());
        bits::lemma_empty(c[p.frozen[i] as int].free());
    }
}

proof fn lemma_after_next_point(p: PathModel, c: Seq<Frozen>, n: int, j: int)
    requires
        0 <= j < n,
        p.next_point(c, n) matches Some(i) ==> i < j,
    ensures
        p.next_choice(c, j) is None,
    decreases n,
{
    if j < n - 1 && p.next_choice(c, n - 1) is None {
        lemma_after_next_point(p, c, n - 1, j);
    }
}

/// An alternative that was proven necessary is never dropped: a step gives up
/// a branch only when it has no alternative left, and the walk ends only when
/// no branch has one.
pub proof fn nothing_open_is_dropped(p: PathModel, c: Seq<Frozen>, j: int)
    requires
        p.inv(c),
        0 <= j < p.branches.len(),
    ensures
        match p.stepped(c) {
            Some((q, d)) => q.branches.len() <= j ==> exhausted(p, c, j),
            None => exhausted(p, c, j),
        },
{
    let n = p.branches.len() as int;
    lemma_next_point(p, c, n);
    if p.next_point(c, n) matches Some(i) ==> i < j {
        lemma_after_next_point(p, c, n, j);
        lemma_exhausted(p, c, j);
    }
}

/// What a branch has explored it never explores again: neither a race nor a
/// step makes an explored alternative pending, and a step marks the
/// alternative that it leaves as explored.
pub proof fn explored_alternatives_stay_explored(s: Schedule, i: int, t: int, conservative: bool)
    requires
        0 <= i < MAX_THREADS,
        0 <= t < MAX_THREADS,
        s.threads@[i] == Thread::Visited || s.threads@[i] == Thread::Active,
    ensures
        s.marked(t, conservative).threads@[i] == s.threads@[i],
        s.finished().threads@[i] == Thread::Visited,
        first_slot(s.threads, Class::Pending) matches Some(k) ==> {
            &&& k != i
            &&& s.finished().activated(k).threads@[i] == Thread::Visited
        },
{
    broadcast use bits::group_bits;
    broadcast use lemma_slot_mask;

}

/// A branch that a load opens offers each of its candidates, and begins with
/// the first; one that a wait opens begins without a wake-up of its own, and
/// still has that alternative. Neither changes the branches before it. Where
/// the path is not exploring they offer nothing else.
pub proof fn a_new_branch_offers_what_it_is_given(p: PathModel, seed: Seq<u8>, i: int)
    requires
        p.traversed(),
        0 <= p.pos,
        seed.len() <= MAX_ATOMIC_HISTORY,
        0 <= i < seed.len(),
    ensures
        p.with_load(seed) matches Ok(q) ==> {
            &&& q.branches.len() == p.branches.len() + 1
            &&& q.branches.take(p.branches.len() as int) == p.branches
            &&& q.branches[p.pos] matches Entry::Load(l) && {
                &&& l.len == seed.len()
                &&& l.values@[i] == seed[i]
                &&& l.pos == 0
                &&& l.exploring == p.exploring
            }
            &&& q.load_branch() matches Ok((after, index)) && index == seed[0] && after.pos
                == p.pos + 1
        },
        p.spurious_branch() matches Ok((q, spur)) ==> {
            &&& !spur
            &&& q.pos == p.pos + 1
            &&& q.branches.take(p.branches.len() as int) == p.branches
            &&& q.branches[p.pos] matches Entry::Spurious(s) && !s.spur && s.exploring
                == p.exploring
        },
        p.with_load(seed) is Err <==> p.branches.len() >= p.capacity,
        p.spurious_branch() is Err <==> p.branches.len() >= p.capacity,
{
    if let Ok(q) = p.with_load(seed) {
        assert(q.branches.take(p.branches.len() as int) =~= p.branches);
    }
    if let Ok((q, spur)) = p.spurious_branch() {
        assert(q.branches.take(p.branches.len() as int) =~= p.branches);
    }
}

/// Preemptions are counted along the path: a new branch begins with what the
/// choices before it cost, and knows the thread that had just run where that
/// thread can go on, so that to choose another there is one preemption more.
pub proof fn preemptions_are_counted(p: PathModel, c: Seq<Frozen>, seed: Seq<Thread>)
    requires
        p.inv(c),
    ensures
        ({
            let s = p.new_schedule(seed);
            let prev = last_schedule(p.branches, p.branches.len() as int);
            let ran = match prev {
                Some(j) => p.schedule_at(j).active(),
                None => Some(0),
            };
            &&& prev is None ==> s.preemptions == 0
            &&& prev matches Some(j) ==> (p.schedule_at(j).cost() <= u8::MAX ==> s.preemptions
                == p.schedule_at(j).cost())
            &&& s.initial_active is Some <==> s.active() is Some && s.active() == ran
            &&& s.initial_active matches Some(a) ==> s.active() == Some(a as int)
            &&& s.cost() == s.preemptions
        }),
{
    lemma_last_schedule(p.branches, p.branches.len() as int);
    if let Some(j) = last_schedule(p.branches, p.branches.len() as int) {
        assert(entry_wf(p.branches, j, p.preemption_bound));
    }
}

} // verus!
