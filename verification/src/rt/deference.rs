//! What sleep sets cut off, and why nothing is lost by it.
//!
//! An execution is cut short where it runs a thread that sleeps: at an earlier
//! branch that thread was an open alternative below the one that was chosen, and
//! nothing since conflicts with its operation. The run in which it was chosen
//! there does the same in another order.
use vstd::prelude::*;

use crate::rt::bits;
use crate::rt::claims::Frozen;
use crate::rt::condvar::CondvarModel;
use crate::rt::execution::ExecModel;
use crate::rt::history::{did, is_history, Deed, Moment};
use crate::rt::laws::nobody_sleeps_through_a_conflict;
use crate::rt::object::dependent_operations;
use crate::rt::path::laws::Choice;
use crate::rt::thread::{Action, Operation};
use crate::rt::timeout::{
    lemma_cell_did_aside, lemma_fenced_aside, lemma_plain_did_aside, lemma_zeroed_aside,
};
use crate::rt::wait::{Phase, Wait};
use crate::rt::MAX_THREADS;

verus! {

// ----- runs -----
/// One step of a run: the thread that was chosen, the operation that it had
/// announced, and what was chosen in the course of it.
pub struct Step {
    pub thread: int,
    pub operation: Option<Operation>,
    pub choices: Seq<Choice>,
}

/// A thread whose step is `b` sleeps on past the step `a`.
pub open spec fn independent(a: Step, b: Step) -> bool {
    &&& a.thread != b.thread
    &&& a.operation matches Some(op) ==> (b.operation matches Some(other) && !dependent_operations(
        op,
        other,
    ))
}

/// The run with steps `j` and `j + 1` in the other order.
pub open spec fn swapped(r: Seq<Step>, j: int) -> Seq<Step> {
    r.update(j, r[j + 1]).update(j + 1, r[j])
}

/// Independent steps commute: where the second of two neighbours sleeps on past
/// the first, the run with both swapped is one of the runs too, and behaves the
/// same.
pub open spec fn commutes<B>(runs: Set<Seq<Step>>, behavior: spec_fn(Seq<Step>) -> B) -> bool {
    forall|r: Seq<Step>, j: int|
        runs.contains(r) && 0 <= j < r.len() - 1 && independent(r[j], r[j + 1]) ==> runs.contains(
            #[trigger] swapped(r, j),
        ) && behavior(swapped(r, j)) == behavior(r)
}

/// The thread of step `k` was passed over at step `i` for one above it, and
/// slept from there on.
pub open spec fn passed_over(r: Seq<Step>, i: int, k: int) -> bool {
    &&& 0 <= i < k < r.len()
    &&& r[k].thread < r[i].thread
    &&& forall|j: int| i <= j < k ==> independent(#[trigger] r[j], r[k])
}

/// The threads of a run of at most `n` steps.
pub open spec fn bounded(r: Seq<Step>, n: nat) -> bool {
    &&& r.len() <= n
    &&& forall|j: int| 0 <= j < r.len() ==> 0 <= (#[trigger] r[j]).thread < MAX_THREADS
}

// ----- the order of runs -----
pub open spec fn power(n: nat) -> nat
    decreases n,
{
    if n == 0 {
        1
    } else {
        MAX_THREADS as nat * power((n - 1) as nat)
    }
}

/// The place of a run of at most `n` steps in the order of the threads.
pub open spec fn weight(r: Seq<Step>, n: nat) -> int
    decreases n,
{
    if n == 0 || r.len() == 0 {
        0
    } else {
        r[0].thread * power((n - 1) as nat) + weight(r.skip(1), (n - 1) as nat)
    }
}

proof fn lemma_weight(r: Seq<Step>, n: nat)
    requires
        bounded(r, n),
    ensures
        0 <= weight(r, n) < power(n),
        power(n) > 0,
    decreases n,
{
    if n > 0 {
        let p = power((n - 1) as nat) as int;
        if r.len() > 0 {
            let rest = r.skip(1);
            assert forall|j: int| 0 <= j < rest.len() implies 0 <= (#[trigger] rest[j]).thread
                < MAX_THREADS by {
                assert(rest[j] == r[j + 1]);
            }
            lemma_weight(rest, (n - 1) as nat);
            let d = r[0].thread;
            let w = weight(rest, (n - 1) as nat);
            assert(0 <= d * p + w < 5 * p) by (nonlinear_arith)
                requires
                    0 <= d <= 4,
                    0 <= w < p,
            ;
        } else {
            lemma_weight(r, (n - 1) as nat);
        }
    }
}

/// A run that parts from another by a lower thread comes before it.
proof fn lemma_lower(a: Seq<Step>, b: Seq<Step>, i: int, n: nat)
    requires
        bounded(a, n),
        bounded(b, n),
        0 <= i < a.len(),
        i < b.len(),
        b.take(i) == a.take(i),
        b[i].thread < a[i].thread,
    ensures
        weight(b, n) < weight(a, n),
    decreases n,
{
    let m = (n - 1) as nat;
    let p = power(m) as int;
    let x = a.skip(1);
    let y = b.skip(1);
    assert forall|j: int| 0 <= j < x.len() implies 0 <= (#[trigger] x[j]).thread < MAX_THREADS by {
        assert(x[j] == a[j + 1]);
    }
    assert forall|j: int| 0 <= j < y.len() implies 0 <= (#[trigger] y[j]).thread < MAX_THREADS by {
        assert(y[j] == b[j + 1]);
    }
    lemma_weight(x, m);
    lemma_weight(y, m);
    let (v, w) = (weight(x, m), weight(y, m));
    if i == 0 {
        let (d, e) = (a[0].thread, b[0].thread);
        assert(e * p + w < d * p + v) by (nonlinear_arith)
            requires
                e < d,
                0 <= v,
                0 <= w < p,
        ;
    } else {
        assert(b.take(i)[0] == b[0] && a.take(i)[0] == a[0]);
        assert(y.take(i - 1) =~= x.take(i - 1)) by {
            assert forall|j: int| 0 <= j < i - 1 implies y[j] == x[j] by {
                assert(b.take(i)[j + 1] == b[j + 1]);
                assert(a.take(i)[j + 1] == a[j + 1]);
            }
        }
        lemma_lower(x, y, i - 1, m);
    }
}

/// A step that sleeps on past those before it can be brought forward.
proof fn lemma_forward<B>(
    runs: Set<Seq<Step>>,
    behavior: spec_fn(Seq<Step>) -> B,
    r: Seq<Step>,
    i: int,
    k: int,
) -> (to: Seq<Step>)
    requires
        commutes(runs, behavior),
        runs.contains(r),
        0 <= i <= k < r.len(),
        forall|j: int| i <= j < k ==> independent(#[trigger] r[j], r[k]),
    ensures
        runs.contains(to),
        behavior(to) == behavior(r),
        to.len() == r.len(),
        to.take(i) == r.take(i),
        to[i] == r[k],
    decreases k - i,
{
    if i == k {
        r
    } else {
        let s = swapped(r, k - 1);
        assert(independent(r[k - 1], r[k - 1 + 1]));
        assert(runs.contains(s));
        assert forall|j: int| i <= j < k - 1 implies independent(#[trigger] s[j], s[k - 1]) by {
            assert(s[j] == r[j]);
        }
        let to = lemma_forward(runs, behavior, s, i, k - 1);
        assert(s.take(i) =~= r.take(i));
        to
    }
}

/// The runs part, and `a` takes the lower thread there: it is in the subtree of a
/// sibling below the one of `b`.
pub open spec fn is_below(a: Seq<Step>, b: Seq<Step>) -> bool {
    exists|i: int|
        0 <= i < a.len() && i < b.len() && a.take(i) == b.take(i) && (#[trigger] a[i]).thread
            < b[i].thread
}

/// Another run of the set, in the subtree of a lower sibling, behaves the same.
pub open spec fn is_met_below<B>(
    runs: Set<Seq<Step>>,
    behavior: spec_fn(Seq<Step>) -> B,
    r: Seq<Step>,
) -> bool {
    exists|to: Seq<Step>| #[trigger]
        runs.contains(to) && is_below(to, r) && behavior(to) == behavior(r)
}

/// Deferring comes to an end, whichever run defers to which: where each run that
/// is cut is met in the subtree of a lower sibling, each behavior is that of a
/// run which is not cut. No two subtrees leave a behavior to each other.
pub proof fn deferring_ends<B>(
    runs: Set<Seq<Step>>,
    behavior: spec_fn(Seq<Step>) -> B,
    cut: spec_fn(Seq<Step>) -> bool,
    n: nat,
    r: Seq<Step>,
) -> (to: Seq<Step>)
    requires
        forall|x: Seq<Step>| #[trigger] runs.contains(x) ==> bounded(x, n),
        forall|x: Seq<Step>| #[trigger]
            runs.contains(x) && cut(x) ==> is_met_below(runs, behavior, x),
        runs.contains(r),
    ensures
        runs.contains(to),
        !cut(to),
        behavior(to) == behavior(r),
    decreases weight(r, n),
{
    if cut(r) {
        assert(is_met_below(runs, behavior, r));
        let s = choose|s: Seq<Step>| #[trigger]
            runs.contains(s) && is_below(s, r) && behavior(s) == behavior(r);
        let i = choose|i: int|
            0 <= i < s.len() && i < r.len() && s.take(i) == r.take(i) && (#[trigger] s[i]).thread
                < r[i].thread;
        lemma_lower(r, s, i, n);
        lemma_weight(s, n);
        deferring_ends(runs, behavior, cut, n, s)
    } else {
        r
    }
}

/// Sleep sets lose no behavior of a walk that tries every schedule: where
/// operations that do not conflict commute, and a run is only ever cut short
/// because it runs a thread that was passed over, each behavior of a run is that
/// of a run which is not cut.
pub proof fn sleeping_loses_nothing<B>(
    runs: Set<Seq<Step>>,
    behavior: spec_fn(Seq<Step>) -> B,
    cut: spec_fn(Seq<Step>) -> bool,
    n: nat,
    r: Seq<Step>,
) -> (to: Seq<Step>)
    requires
        commutes(runs, behavior),
        forall|x: Seq<Step>| #[trigger] runs.contains(x) ==> bounded(x, n),
        forall|x: Seq<Step>| #[trigger]
            runs.contains(x) && cut(x) ==> exists|i: int, k: int| passed_over(x, i, k),
        runs.contains(r),
    ensures
        runs.contains(to),
        !cut(to),
        behavior(to) == behavior(r),
{
    assert forall|x: Seq<Step>| #[trigger] runs.contains(x) && cut(x) implies is_met_below(
        runs,
        behavior,
        x,
    ) by {
        let (i, k) = choose|i: int, k: int| passed_over(x, i, k);
        let s = lemma_forward(runs, behavior, x, i, k);
        assert(s[i].thread < x[i].thread);
        assert(is_below(s, x));
        assert(runs.contains(s));
    }
    deferring_ends(runs, behavior, cut, n, r)
}

// ----- executions -----
/// The execution that the operation asks for a decision, if it does.
pub open spec fn decision_of(e: ExecModel, deed: Deed) -> Option<ExecModel> {
    match deed {
        Deed::Begin { object, action } => Some(beginning(e, object, action)),
        Deed::BeginLock { object } => Some(e.contending(object)),
        Deed::Park { timed } => if e.has_unpark() {
            None
        } else {
            Some(e.blocked(timed))
        },
        Deed::Yield => Some(e.yielding()),
        Deed::Done => Some(e.ending()),
        Deed::Advance { wait } => waiting(e, wait),
        _ => None,
    }
}

/// The execution with an operation on `object` announced.
pub open spec fn beginning(e: ExecModel, object: usize, action: Action) -> ExecModel {
    let n = if e.is_cell(object as int) {
        e.with_cell(object as int, e.cell(object as int).prepared(action))
    } else {
        e
    };
    n.announced(Some(Operation { object, action }))
}

/// The execution that a step of a wait asks for a decision, if it does.
pub open spec fn waiting(e: ExecModel, w: Wait) -> Option<ExecModel> {
    match w.phase {
        Phase::Announce => Some(beginning(e, w.condvar, Action::Opaque)),
        Phase::Decide => match e.spurred(w.condvar as int) {
            Err(_) => None,
            Ok((n, true)) => Some(n.unlocked(w.mutex).contending(w.mutex)),
            Ok((n, false)) => {
                let parked = n.enqueued(w.condvar as int).unlocked(w.mutex);
                if parked.has_unpark() {
                    None
                } else {
                    Some(parked.blocked(w.timed))
                }
            },
        },
        Phase::Woken => Some(e.dequeued_self(w.condvar as int).0.contending(w.mutex)),
        Phase::Relock { .. } => None,
    }
}

/// The step that a decision leads to.
pub open spec fn step_of(asked: ExecModel, after: ExecModel) -> Step {
    let next = after.threads.active->Some_0 as int;
    Step {
        thread: next,
        operation: asked.threads.threads[next].operation,
        choices: Seq::empty(),
    }
}

/// The step that thread `u` would take.
pub open spec fn step_by(e: ExecModel, u: int) -> Step {
    Step { thread: u, operation: e.threads.threads[u].operation, choices: Seq::empty() }
}

/// The threads are the same but for the active one, as far as their operations
/// go, and the same sleep.
spec fn same_sleepers(e: ExecModel, n: ExecModel) -> bool {
    &&& n.sleep == e.sleep
    &&& n.sleep_sets == e.sleep_sets
    &&& n.threads.active == e.threads.active
    &&& n.threads.threads.len() >= e.threads.threads.len()
    &&& forall|i: int|
        0 <= i < e.threads.threads.len() && i != e.threads.me() ==> (
        #[trigger] n.threads.threads[i]).operation == e.threads.threads[i].operation
}

/// A decision keeps what the threads are about to do.
proof fn lemma_decided(d: ExecModel, c: Seq<Frozen>)
    requires
        d.threads.running(),
    ensures
        d.scheduled(c) matches Ok(s) ==> {
            &&& s.after.sleep_sets == d.sleep_sets
            &&& s.after.threads.threads.len() == d.threads.threads.len()
            &&& forall|i: int|
                0 <= i < d.threads.threads.len() ==> (
                #[trigger] s.after.threads.threads[i]).operation == d.threads.threads[i].operation
        },
{
    let t = d.threads.rescued();
    if let Ok(s) = d.scheduled(c) {
        assert forall|i: int| 0 <= i < d.threads.threads.len() implies (
        #[trigger] s.after.threads.threads[i]).operation == d.threads.threads[i].operation by {
            assert(t.threads[i].operation == d.threads.threads[i].operation);
        }
    }
}

proof fn lemma_woke_sleepers(e: ExecModel, waiters: Seq<usize>, n: int)
    requires
        e.threads.running(),
    ensures
        same_sleepers(e, e.woke(waiters, n)),
        e.woke(waiters, n).threads.threads.len() == e.threads.threads.len(),
    decreases n,
{
    if n > 0 {
        lemma_woke_sleepers(e, waiters, n - 1);
    }
}

proof fn lemma_sync_sleepers(m: Moment, deed: Deed)
    requires
        deed is Lock || deed is Unlock || deed is NotifyOne || deed is NotifyAll
            || deed is Unpark,
    ensures
        did(m, deed) matches Some(n) ==> same_sleepers(m.0, n.0),
{
    reveal(did);
    let (e, c) = m;
    if did(m, deed) is Some {
        match deed {
            Deed::NotifyOne { object } | Deed::NotifyAll { object } => {
                let o = object as int;
                let cv = e.condvar(o);
                let e1 = match deed {
                    Deed::NotifyOne { .. } => e.with_condvar(o, cv.dequeued()),
                    _ => e.with_condvar(o, CondvarModel { waiters: Seq::empty(), ..cv }),
                };
                lemma_woke_sleepers(e1, cv.waiters, 0);
                lemma_woke_sleepers(e1, cv.waiters, 1);
                lemma_woke_sleepers(e1, cv.waiters, cv.waiters.len() as int);
            },
            _ => {},
        }
    }
}

proof fn lemma_waiting(e: ExecModel, c: Seq<Frozen>, w: Wait)
    requires
        e.running(c),
    ensures
        e.waited(c, w) matches Ok(s) ==> match waiting(e, w) {
            Some(d) => {
                &&& same_sleepers(e, d)
                &&& d.threads.running()
                &&& d.threads.threads.len() == e.threads.threads.len()
                &&& d.scheduled(c) matches Ok(n) && n.after == s.after && n.claims == s.claims
            },
            None => same_sleepers(e, s.after) && s.after.threads.threads.len()
                == e.threads.threads.len(),
        },
{
}

/// What an operation does, in terms of the decision that it asks for.
proof fn lemma_asked(m: Moment, deed: Deed)
    ensures
        did(m, deed) is Some ==> m.0.threads.running(),
        did(m, deed) matches Some(n) ==> match decision_of(m.0, deed) {
            Some(d) => {
                &&& same_sleepers(m.0, d)
                &&& d.threads.running()
                &&& d.scheduled(m.1) matches Ok(s) && n == (s.after, s.claims)
            },
            None => same_sleepers(m.0, n.0),
        },
{
    reveal(did);
    if did(m, deed) is Some {
        match deed {
            Deed::Load { .. } | Deed::Store { .. } | Deed::Rmw { .. } => {
                lemma_cell_did_aside(m, deed);
            },
            Deed::Begin { .. }
            | Deed::BeginLock { .. }
            | Deed::Park { .. }
            | Deed::Yield
            | Deed::Done => {},
            Deed::Advance { wait } => {
                lemma_waiting(m.0, m.1, wait);
            },
            Deed::Lock { .. }
            | Deed::Unlock { .. }
            | Deed::NotifyOne { .. }
            | Deed::NotifyAll { .. }
            | Deed::Unpark { .. } => {
                lemma_sync_sleepers(m, deed);
            },
            Deed::Fence { order } => {
                lemma_fenced_aside(m.0, order);
            },
            Deed::Zero { base, len } => {
                lemma_zeroed_aside(m.0, m.1, base, len);
            },
            _ => {
                lemma_plain_did_aside(m, deed);
            },
        }
    }
}

/// The decision of operation `l`, if it made one, led to a step past which a
/// thread whose step is `b` sleeps on.
pub open spec fn slept_past(h: Seq<Moment>, deeds: Seq<Deed>, l: int, b: Step) -> bool {
    decision_of(h[l].0, deeds[l]) matches Some(d) ==> (h[l + 1].0.threads.active is Some
        ==> independent(step_of(d, h[l + 1].0), b))
}

/// At operation `k` thread `u` was an open alternative below the thread that was
/// chosen, and from there to moment `i` it slept on past every step.
pub open spec fn deferred(h: Seq<Moment>, deeds: Seq<Deed>, k: int, i: int, u: int) -> bool {
    &&& decision_of(h[k].0, deeds[k]) is Some
    &&& h[k + 1].0.threads.active matches Some(next) && u < next && bits::holds(
        h[k + 1].0.path.covered(h[k + 1].1, h[k + 1].0.path.pos - 1, Some(next as int)),
        u,
    )
    &&& forall|l: int|
        k <= l < i ==> #[trigger] slept_past(h, deeds, l, step_by(h[i].0, u))
}

/// At moment `m` the operation `deed` put thread `u` to sleep.
spec fn fell_asleep(m: Moment, deed: Deed, n: Moment, u: int) -> bool {
    &&& decision_of(m.0, deed) is Some
    &&& n.0.threads.active matches Some(next) && u < next && bits::holds(
        n.0.path.covered(n.1, n.0.path.pos - 1, Some(next as int)),
        u,
    )
}

/// What one operation means for a thread that sleeps after it.
proof fn lemma_sleeps_on(m: Moment, deed: Deed, n: Moment, u: int)
    requires
        did(m, deed) == Some(n),
        m.0.sleep_sets,
        0 <= u < m.0.threads.threads.len(),
        m.0.sleep.sleeps(u) ==> m.0.threads.active != Some(u as usize),
    ensures
        n.0.sleep_sets,
        u < n.0.threads.threads.len(),
        n.0.sleep.sleeps(u) ==> {
            &&& n.0.threads.active != Some(u as usize)
            &&& decision_of(m.0, deed) matches Some(d) ==> (n.0.threads.active is Some
                ==> independent(step_of(d, n.0), step_by(n.0, u)))
            &&& fell_asleep(m, deed, n, u) || (m.0.sleep.sleeps(u) && step_by(n.0, u) == step_by(
                m.0,
                u,
            ))
        },
{
    lemma_asked(m, deed);
    if let Some(d) = decision_of(m.0, deed) {
        lemma_sleeps_on_after(d, m.1, u);
    }
}

proof fn lemma_sleeps_on_after(d: ExecModel, c: Seq<Frozen>, u: int)
    requires
        d.threads.running(),
        d.sleep_sets,
        0 <= u < d.threads.threads.len(),
    ensures
        d.scheduled(c) matches Ok(s) ==> {
            let n = s.after;
            &&& n.sleep_sets
            &&& u < n.threads.threads.len()
            &&& n.threads.threads[u].operation == d.threads.threads[u].operation
            &&& n.sleep.sleeps(u) ==> {
                &&& n.threads.active != Some(u as usize)
                &&& n.threads.active is Some ==> independent(step_of(d, n), step_by(d, u))
                &&& d.sleep.sleeps(u) || (n.threads.active matches Some(next) && u < next
                    && bits::holds(
                    n.path.covered(s.claims, n.path.pos - 1, Some(next as int)),
                    u,
                ))
            }
        },
{
    broadcast use bits::group_bits;

    lemma_decided(d, c);
    nobody_sleeps_through_a_conflict(d, c, u);
}

/// A thread sleeps because it was passed over: it is an open alternative at an
/// earlier branch of the execution, below the thread that was chosen there, and
/// nothing that has run since conflicts with the operation that it is about to
/// perform.
pub proof fn a_sleeper_was_passed_over(
    h: Seq<Moment>,
    deeds: Seq<Deed>,
    s: int,
    i: int,
    u: int,
)
    requires
        is_history(h, deeds),
        0 <= s <= i < h.len(),
        h[s].0.sleep_sets,
        0 <= u < h[s].0.threads.threads.len(),
        !h[s].0.sleep.sleeps(u),
    ensures
        h[i].0.sleep_sets,
        u < h[i].0.threads.threads.len(),
        h[i].0.sleep.sleeps(u) ==> {
            &&& h[i].0.threads.active != Some(u as usize)
            &&& exists|k: int| s <= k < i && #[trigger] deferred(h, deeds, k, i, u)
        },
    decreases i - s,
{
    if s < i {
        a_sleeper_was_passed_over(h, deeds, s, i - 1, u);
        assert(did(h[i - 1], deeds[i - 1]) == Some(h[i - 1 + 1]));
        lemma_sleeps_on(h[i - 1], deeds[i - 1], h[i], u);
        if h[i].0.sleep.sleeps(u) {
            let b = step_by(h[i].0, u);
            assert(slept_past(h, deeds, i - 1, b));
            let k = if fell_asleep(h[i - 1], deeds[i - 1], h[i], u) {
                i - 1
            } else {
                choose|k: int| s <= k < i - 1 && #[trigger] deferred(h, deeds, k, i - 1, u)
            };
            assert forall|l: int| k <= l < i implies #[trigger] slept_past(h, deeds, l, b) by {
                if l < i - 1 {
                    assert(slept_past(h, deeds, l, step_by(h[i - 1].0, u)));
                }
            }
            assert(deferred(h, deeds, k, i, u));
        }
    }
}

/// An execution is cut short only where it defers to another: the thread that
/// runs while it sleeps was passed over at an earlier branch for one above it,
/// and its step is independent of every step in between.
pub proof fn a_cut_execution_defers(h: Seq<Moment>, deeds: Seq<Deed>, s: int, i: int)
    requires
        is_history(h, deeds),
        0 <= s <= i < deeds.len(),
        h[s].0.sleep_sets,
        decision_of(h[i].0, deeds[i]) is Some,
        h[i + 1].0.threads.active is Some,
        ({
            let u = h[i + 1].0.threads.me();
            &&& u < h[s].0.threads.threads.len()
            &&& !h[s].0.sleep.sleeps(u)
            &&& h[i].0.sleep.sleeps(u)
        }),
    ensures
        ({
            let b = step_of(decision_of(h[i].0, deeds[i])->Some_0, h[i + 1].0);
            exists|k: int|
                {
                    &&& s <= k < i
                    &&& #[trigger] deferred(h, deeds, k, i, b.thread)
                    &&& forall|l: int| k <= l < i ==> #[trigger] slept_past(h, deeds, l, b)
                }
        }),
{
    let u = h[i + 1].0.threads.me();
    let d = decision_of(h[i].0, deeds[i])->Some_0;
    let b = step_of(d, h[i + 1].0);
    a_sleeper_was_passed_over(h, deeds, s, i, u);
    assert(did(h[i], deeds[i]) == Some(h[i + 1]));
    lemma_asked(h[i], deeds[i]);
    let k = choose|k: int| s <= k < i && #[trigger] deferred(h, deeds, k, i, u);
    assert(b == step_by(h[i].0, u));
    assert(deferred(h, deeds, k, i, b.thread));
}

/// The steps of the first `i` operations: one for each decision.
pub open spec fn steps_of(h: Seq<Moment>, deeds: Seq<Deed>, i: int) -> Seq<Step>
    decreases i,
{
    if i <= 0 {
        Seq::empty()
    } else {
        match decision_of(h[i - 1].0, deeds[i - 1]) {
            Some(d) if h[i].0.threads.active is Some => steps_of(h, deeds, i - 1).push(
                step_of(d, h[i].0),
            ),
            _ => steps_of(h, deeds, i - 1),
        }
    }
}

/// Every step after the first `k` operations comes from one of them.
proof fn lemma_steps_of(h: Seq<Moment>, deeds: Seq<Deed>, k: int, i: int, b: Step)
    requires
        0 <= k <= i,
        forall|l: int| k <= l < i ==> #[trigger] slept_past(h, deeds, l, b),
    ensures
        steps_of(h, deeds, k).len() <= steps_of(h, deeds, i).len(),
        steps_of(h, deeds, i).take(steps_of(h, deeds, k).len() as int) == steps_of(h, deeds, k),
        forall|q: int|
            steps_of(h, deeds, k).len() <= q < steps_of(h, deeds, i).len() ==> independent(
                #[trigger] steps_of(h, deeds, i)[q],
                b,
            ),
    decreases i - k,
{
    let len = steps_of(h, deeds, k).len() as int;
    if k < i {
        lemma_steps_of(h, deeds, k, i - 1, b);
        let before = steps_of(h, deeds, i - 1);
        let after = steps_of(h, deeds, i);
        assert(slept_past(h, deeds, i - 1, b));
        assert(after.take(len) =~= before.take(len));
        assert forall|q: int| len <= q < after.len() implies independent(
            #[trigger] after[q],
            b,
        ) by {
            if q < before.len() {
                assert(after[q] == before[q]);
            }
        }
    } else {
        assert(steps_of(h, deeds, i).take(len) =~= steps_of(h, deeds, i));
    }
}

/// The same, of the steps that the execution has taken: the one that cuts it
/// short was passed over for an earlier one.
pub proof fn a_cut_execution_was_passed_over(h: Seq<Moment>, deeds: Seq<Deed>, s: int, i: int)
    requires
        is_history(h, deeds),
        0 <= s <= i < deeds.len(),
        h[s].0.sleep_sets,
        decision_of(h[i].0, deeds[i]) is Some,
        h[i + 1].0.threads.active is Some,
        ({
            let u = h[i + 1].0.threads.me();
            &&& u < h[s].0.threads.threads.len()
            &&& !h[s].0.sleep.sleeps(u)
            &&& h[i].0.sleep.sleeps(u)
        }),
    ensures
        ({
            let steps = steps_of(h, deeds, i + 1);
            exists|a: int, k: int| k == steps.len() - 1 && #[trigger] passed_over(steps, a, k)
        }),
{
    let d = decision_of(h[i].0, deeds[i])->Some_0;
    let b = step_of(d, h[i + 1].0);
    a_cut_execution_defers(h, deeds, s, i);
    let k = choose|k: int|
        {
            &&& s <= k < i
            &&& #[trigger] deferred(h, deeds, k, i, b.thread)
            &&& forall|l: int| k <= l < i ==> #[trigger] slept_past(h, deeds, l, b)
        };
    lemma_steps_of(h, deeds, k, i, b);
    lemma_steps_of(h, deeds, k + 1, i, b);
    let steps = steps_of(h, deeds, i + 1);
    let before = steps_of(h, deeds, i);
    let a = steps_of(h, deeds, k).len() as int;
    let first = step_of(decision_of(h[k].0, deeds[k])->Some_0, h[k + 1].0);
    assert(steps_of(h, deeds, k + 1) == steps_of(h, deeds, k).push(first));
    assert(before.take(a + 1)[a] == before[a]);
    assert(steps == before.push(b));
    assert(steps[a] == first);
    assert forall|q: int| a <= q < steps.len() - 1 implies independent(
        #[trigger] steps[q],
        steps[steps.len() - 1],
    ) by {
        assert(steps[q] == before[q]);
    }
    assert(passed_over(steps, a, steps.len() - 1));
}

} // verus!
