//! Timed waits that nobody notifies.
use vstd::prelude::*;

use crate::rt::claims::Frozen;
use crate::rt::condvar::{place_of, CondvarModel};
use crate::rt::execution::ExecModel;
use crate::rt::fence::lemma_drew_from_objects;
use crate::rt::history::{did, is_history, Deed, Moment};
use crate::rt::ops::{lemma_composed_threads, lemma_failed_threads, lemma_written_threads};
use crate::rt::order::Order;
use crate::rt::thread::{Action, Operation, State, ThreadsModel};
use crate::rt::wait::{Phase, Wait};

verus! {

/// Thread `a` is in the queue of the condition variable.
pub open spec fn queued(e: ExecModel, a: int, condvar: int) -> bool {
    e.is_condvar(condvar) && e.condvar(condvar).waiters.contains(a as usize)
}

/// Thread `a` is parked with a timeout, or was woken and has not run yet.
pub open spec fn parked(t: ThreadsModel, a: int) -> bool {
    &&& 0 <= a < t.threads.len()
    &&& t.threads[a].operation is None
    &&& t.threads[a].state == (State::Blocked { timed: true }) || t.threads[a].state is Runnable
}

/// Both: thread `a` is in a timed wait that no notification has reached.
pub open spec fn waits(e: ExecModel, a: int, condvar: int) -> bool {
    queued(e, a, condvar) && parked(e.threads, a)
}

/// The operation notifies waiters of the condition variable.
pub open spec fn notifies(deed: Deed, condvar: int) -> bool {
    match deed {
        Deed::NotifyOne { object } => object == condvar,
        Deed::NotifyAll { object } => object == condvar,
        _ => false,
    }
}

/// Every pending operation is on an object.
spec fn named(e: ExecModel) -> bool {
    forall|i: int|
        0 <= i < e.threads.threads.len() ==> ((#[trigger] e.threads.threads[i]).operation matches Some(
        op,
    ) ==> op.object < e.objects.len())
}

proof fn lemma_scheduled_waits(e: ExecModel, c: Seq<Frozen>, a: int, condvar: int)
    requires
        named(e),
        waits(e, a, condvar),
    ensures
        e.scheduled(c) matches Ok(s) ==> waits(s.after, a, condvar),
{
    let t = e.threads.rescued();
    let (p1, c1) = e.raced_from(e.path, c, 0);
    if let Ok(s) = e.scheduled(c) {
        if let Ok((p2, chosen, covered)) = p1.thread_branch(c1, t.seed()) {
            assert(t.threads[a].operation is None);
            if let Some(next) = chosen {
                assert(0 <= next < t.threads.len());
                assert(t.threads[next].operation == e.threads.threads[next].operation);
                assert(s.after.condvar(condvar).waiters == e.condvar(condvar).waiters);
            }
        }
    }
}

/// A decision with only the active thread's part changed.
proof fn lemma_decision_waits(e: ExecModel, n: ExecModel, c: Seq<Frozen>, a: int, condvar: int)
    requires
        e.running(c),
        waits(n, a, condvar),
        n.objects.len() == e.objects.len(),
        n.threads.threads.len() == e.threads.threads.len(),
        forall|i: int|
            0 <= i < n.threads.threads.len() && (#[trigger] n.threads.threads[i]).operation
                != e.threads.threads[i].operation ==> (n.threads.threads[i].operation matches Some(
            op,
        ) ==> op.object < e.objects.len()),
    ensures
        n.scheduled(c) matches Ok(s) ==> waits(s.after, a, condvar),
{
    assert forall|i: int| 0 <= i < n.threads.threads.len() implies ((
    #[trigger] n.threads.threads[i]).operation matches Some(op) ==> op.object
        < n.objects.len()) by {
        assert(e.threads.threads[i].operation matches Some(op) ==> op.object < e.objects.len());
    }
    lemma_scheduled_waits(n, c, a, condvar);
}

proof fn lemma_begun_waits(
    e: ExecModel,
    c: Seq<Frozen>,
    object: usize,
    action: Action,
    a: int,
    condvar: int,
)
    requires
        e.running(c),
        e.threads.me() != a,
        object < e.objects.len(),
        waits(e, a, condvar),
    ensures
        e.begun(c, object, action) matches Ok(s) ==> waits(s.after, a, condvar),
{
    let n = if e.is_cell(object as int) {
        e.with_cell(object as int, e.cell(object as int).prepared(action))
    } else {
        e
    };
    let m = n.announced(Some(Operation { object, action }));
    assert(m.condvar(condvar) == e.condvar(condvar));
    lemma_decision_waits(e, m, c, a, condvar);
}

proof fn lemma_woke_waits(e: ExecModel, waiters: Seq<usize>, n: int, a: int)
    requires
        e.threads.running(),
        e.threads.me() != a,
        parked(e.threads, a),
    ensures
        e.woke(waiters, n).objects == e.objects,
        e.woke(waiters, n).threads.active == e.threads.active,
        e.woke(waiters, n).threads.threads.len() == e.threads.threads.len(),
        parked(e.woke(waiters, n).threads, a),
    decreases n,
{
    if n > 0 {
        lemma_woke_waits(e, waiters, n - 1, a);
    }
}

pub proof fn lemma_place_of(waiters: Seq<usize>, thread: usize, i: int)
    requires
        0 <= i <= waiters.len(),
    ensures
        match place_of(waiters, thread, i) {
            Some(k) => i <= k < waiters.len() && waiters[k] == thread,
            None => forall|k: int| i <= k < waiters.len() ==> waiters[k] != thread,
        },
    decreases waiters.len() - i,
{
    if i < waiters.len() {
        lemma_place_of(waiters, thread, i + 1);
    }
}

/// Another thread that stops waiting leaves the queue as it was otherwise.
proof fn lemma_left_waits(c: CondvarModel, b: usize, a: usize)
    requires
        c.waiters.contains(a),
        a != b,
    ensures
        c.left(b).0.waiters.contains(a),
{
    lemma_place_of(c.waiters, b, 0);
    if let Some(k) = place_of(c.waiters, b, 0) {
        let i = choose|i: int| 0 <= i < c.waiters.len() && c.waiters[i] == a;
        let rest = c.waiters.remove(k);
        if i < k {
            assert(rest[i] == a);
        } else {
            assert(rest[i - 1] == a);
        }
    }
}

proof fn lemma_advance_waits(e: ExecModel, c: Seq<Frozen>, w: Wait, a: int, condvar: int)
    requires
        e.running(c),
        e.threads.me() != a,
        e.is_condvar(w.condvar as int),
        e.is_mutex(w.mutex as int),
        waits(e, a, condvar),
    ensures
        e.waited(c, w) matches Ok(s) ==> waits(s.after, a, condvar),
{
    let cv = w.condvar as int;
    let me = e.threads.me() as usize;
    match w.phase {
        Phase::Announce => {
            lemma_begun_waits(e, c, w.condvar, Action::Opaque, a, condvar);
        },
        Phase::Decide => {
            if let Ok((e1, spur)) = e.spurred(cv) {
                assert(waits(e1, a, condvar));
                if spur {
                    let e2 = e1.unlocked(w.mutex);
                    assert(waits(e2, a, condvar));
                    lemma_decision_waits(e, e2.contending(w.mutex), c, a, condvar);
                } else {
                    let e2 = e1.enqueued(cv);
                    let before = e1.condvar(cv).waiters;
                    assert(queued(e2, a, condvar)) by {
                        let i = choose|i: int|
                            0 <= i < e1.condvar(condvar).waiters.len() && e1.condvar(
                                condvar,
                            ).waiters[i] == a as usize;
                        assert(e2.condvar(condvar).waiters[i] == a as usize);
                    }
                    let e3 = e2.unlocked(w.mutex);
                    assert(waits(e3, a, condvar));
                    lemma_decision_waits(e, e3.blocked(w.timed), c, a, condvar);
                }
            }
        },
        Phase::Woken => {
            lemma_left_waits(e.condvar(condvar), me, a as usize);
            let e1 = e.dequeued_self(cv).0;
            assert(waits(e1, a, condvar));
            lemma_decision_waits(e, e1.contending(w.mutex), c, a, condvar);
        },
        Phase::Relock { .. } => {},
    }
}

/// The same condition variables and the same sleepers, and threads that only
/// learned.
pub open spec fn aside(e: ExecModel, n: ExecModel) -> bool {
    &&& n.sleep == e.sleep
    &&& n.sleep_sets == e.sleep_sets
    &&& n.threads.active == e.threads.active
    &&& n.threads.threads.len() >= e.threads.threads.len()
    &&& forall|i: int|
        0 <= i < e.threads.threads.len() ==> (#[trigger] n.threads.threads[i]).operation
            == e.threads.threads[i].operation && n.threads.threads[i].state
            == e.threads.threads[i].state
    &&& forall|o: int| #[trigger]
        e.is_condvar(o) ==> n.is_condvar(o) && n.condvar(o) == e.condvar(o)
}

proof fn lemma_loaded_aside(e: ExecModel, object: int, mask: u128, order: Order, coherent: bool)
    requires
        e.threads.running(),
        e.is_cell(object),
    ensures
        e.loaded(object, mask, order, coherent) matches Ok((n, _)) ==> aside(e, n),
{
    if e.loaded(object, mask, order, coherent) is Ok {
        let t = e.threads.ticked();
        let s1 = e.cell(object).partitioned(mask).tracked_load(t)->Ok_0;
        let s2 = s1.scope_checked(mask, order.joins(), t.me())->Ok_0;
        lemma_composed_threads(
            s2,
            e.path,
            t,
            s2.covered(mask),
            0,
            order,
            coherent,
            Seq::empty(),
            0,
        );
    }
}

proof fn lemma_stored_aside(e: ExecModel, object: int, mask: u128, value: u128, order: Order)
    requires
        e.threads.running(),
        e.is_cell(object),
    ensures
        e.stored(object, mask, value, order) matches Ok(n) ==> aside(e, n),
{
}

proof fn lemma_rmw_aside(
    e: ExecModel,
    object: int,
    read: u128,
    write: u128,
    success: Order,
    failure: Order,
    next: u128,
)
    requires
        e.threads.running(),
        e.is_cell(object),
    ensures
        e.rmw_begun(object, read, write, success, failure) matches Ok(half) ==> {
            &&& e.rmw_done(object, half, next, write, success) matches Ok(n) ==> aside(e, n)
            &&& aside(e, e.rmw_undone(object, half, failure))
        },
{
    if let Ok(half) = e.rmw_begun(object, read, write, success, failure) {
        let t = e.threads.ticked();
        lemma_failed_threads(half.cell, t, half.reads, 0, failure);
        if let Ok(n) = e.rmw_done(object, half, next, write, success) {
            let sc = success == Order::SeqCst;
            let s = half.cell.tracked_store(t)->Ok_0.next_op();
            lemma_written_threads(
                s,
                if sc {
                    t.sc_advanced()
                } else {
                    t
                },
                half.reads,
                0,
                half.value,
                next,
                write,
                success,
                if sc {
                    Some(t.sc_clock)
                } else {
                    None
                },
                s.op_clock,
            );
        }
    }
}

pub proof fn lemma_fenced_aside(e: ExecModel, order: Order)
    requires
        e.threads.running(),
    ensures
        e.fenced(order) matches Ok(n) ==> aside(e, n),
{
    let t = e.threads.ticked();
    lemma_drew_from_objects(t, e.objects, e.objects.len() as int);
}

pub proof fn lemma_zeroed_aside(e: ExecModel, c: Seq<Frozen>, base: u64, len: u64)
    requires
        e.inv(c),
        e.objects.len() <= usize::MAX,
    ensures
        aside(e, e.zeroed(base, len)),
{
    let n = e.zeroed(base, len);
    assert forall|o: int| #[trigger] e.is_condvar(o) implies n.is_condvar(o) && n.condvar(o)
        == e.condvar(o) by {
        if e.cell_within(o as usize, base, len) {
            let k = choose|k: u64|
                #![trigger e.materialized.contains_key(k)]
                e.materialized.contains_key(k) && crate::rt::table::in_range(k, base, len)
                    && e.materialized[k] == o as usize;
            assert(e.objects[e.materialized[k] as int] is Atomic);
        }
    }
}

pub proof fn lemma_cell_did_aside(m: Moment, deed: Deed)
    requires
        deed is Load || deed is Store || deed is Rmw,
    ensures
        did(m, deed) matches Some(n) ==> aside(m.0, n.0),
{
    reveal(did);
    if did(m, deed) is Some {
        match deed {
            Deed::Load { object, mask, order, coherent } => {
                lemma_loaded_aside(m.0, object as int, mask, order, coherent);
            },
            Deed::Store { object, mask, value, order } => {
                lemma_stored_aside(m.0, object as int, mask, value, order);
            },
            Deed::Rmw { object, read, write, success, failure, next } => {
                let value = match next {
                    Some(v) => v,
                    None => 0,
                };
                lemma_rmw_aside(m.0, object as int, read, write, success, failure, value);
            },
            _ => {},
        }
    }
}

pub proof fn lemma_plain_did_aside(m: Moment, deed: Deed)
    requires
        deed is UnsyncLoad || deed is BeginMut || deed is EndMut || deed is NewCell
            || deed is NewMutex || deed is NewCondvar || deed is Register || deed is Materialize
            || deed is Spawn || deed is Publish || deed is Unpublish || deed is Steer,
    ensures
        did(m, deed) matches Some(n) ==> aside(m.0, n.0),
{
    reveal(did);
}

proof fn lemma_sync_waits(m: Moment, deed: Deed, a: int, condvar: int)
    requires
        deed is Lock || deed is Unlock || deed is NotifyOne || deed is NotifyAll
            || deed is Unpark,
        m.0.threads.active != Some(a as usize),
        waits(m.0, a, condvar),
        !notifies(deed, condvar),
    ensures
        did(m, deed) matches Some(n) ==> waits(n.0, a, condvar),
{
    reveal(did);
    let (e, c) = m;
    if let Some((n, d)) = did(m, deed) {
        match deed {
            Deed::NotifyOne { object } | Deed::NotifyAll { object } => {
                let o = object as int;
                let cv = e.condvar(o);
                let e1 = match deed {
                    Deed::NotifyOne { .. } => e.with_condvar(o, cv.dequeued()),
                    _ => e.with_condvar(o, CondvarModel { waiters: Seq::empty(), ..cv }),
                };
                lemma_woke_waits(e1, cv.waiters, 0, a);
                lemma_woke_waits(e1, cv.waiters, 1, a);
                lemma_woke_waits(e1, cv.waiters, cv.waiters.len() as int, a);
                assert(n.condvar(condvar) == e.condvar(condvar));
            },
            _ => {},
        }
    }
}

proof fn lemma_decided_waits(m: Moment, deed: Deed, a: int, condvar: int)
    requires
        deed is BeginLock || deed is Park || deed is Yield || deed is Done,
        m.0.threads.active != Some(a as usize),
        waits(m.0, a, condvar),
    ensures
        did(m, deed) matches Some(n) ==> waits(n.0, a, condvar),
{
    reveal(did);
    let (e, c) = m;
    if did(m, deed) is Some {
        match deed {
            Deed::BeginLock { object } => {
                lemma_decision_waits(e, e.contending(object), c, a, condvar);
            },
            Deed::Park { timed } => {
                lemma_decision_waits(e, e.blocked(timed), c, a, condvar);
            },
            Deed::Yield => {
                lemma_decision_waits(e, e.yielding(), c, a, condvar);
            },
            _ => {
                lemma_decision_waits(e, e.ending(), c, a, condvar);
            },
        }
    }
}

/// A thread in a timed wait stays in it, whatever the others do, until it runs
/// or is notified.
proof fn lemma_did_waits(m: Moment, deed: Deed, a: int, condvar: int)
    requires
        m.0.threads.active != Some(a as usize),
        waits(m.0, a, condvar),
        !notifies(deed, condvar),
    ensures
        did(m, deed) matches Some(n) ==> waits(n.0, a, condvar),
{
    reveal(did);
    if did(m, deed) is Some {
        match deed {
            Deed::Load { .. } | Deed::Store { .. } | Deed::Rmw { .. } => {
                lemma_cell_did_aside(m, deed);
            },
            Deed::Begin { object, action } => {
                lemma_begun_waits(m.0, m.1, object, action, a, condvar);
            },
            Deed::Advance { wait } => {
                lemma_advance_waits(m.0, m.1, wait, a, condvar);
            },
            Deed::BeginLock { .. } | Deed::Park { .. } | Deed::Yield | Deed::Done => {
                lemma_decided_waits(m, deed, a, condvar);
            },
            Deed::Lock { .. }
            | Deed::Unlock { .. }
            | Deed::NotifyOne { .. }
            | Deed::NotifyAll { .. }
            | Deed::Unpark { .. } => {
                lemma_sync_waits(m, deed, a, condvar);
            },
            Deed::Fence { order } => {
                lemma_fenced_aside(m.0, order);
            },
            Deed::Zero { base, len } => {
                lemma_zeroed_aside(m.0, m.1, base, len);
            },
            _ => {
                lemma_plain_did_aside(m, deed);
            },
        }
    }
}

/// The step that begins to wait leaves its thread in the queue.
proof fn lemma_decide_waits(e: ExecModel, c: Seq<Frozen>, w: Wait)
    requires
        e.running(c),
        e.is_condvar(w.condvar as int),
        e.is_mutex(w.mutex as int),
        w.timed,
        w.phase == Phase::Decide,
        e.spurred(w.condvar as int) matches Ok((_, spur)) && !spur,
    ensures
        e.waited(c, w) matches Ok(s) ==> {
            let a = e.threads.me();
            &&& queued(s.after, a, w.condvar as int)
            &&& s.after.threads.active != Some(a as usize) ==> waits(s.after, a, w.condvar as int)
        },
{
    let cv = w.condvar as int;
    let a = e.threads.me();
    let (e1, _) = e.spurred(cv)->Ok_0;
    let e2 = e1.enqueued(cv);
    let e3 = e2.unlocked(w.mutex);
    assert(e2.condvar(cv).waiters[e1.condvar(cv).waiters.len() as int] == a as usize);
    assert(e3.condvar(cv) == e2.condvar(cv));
    assert(queued(e3, a, cv));
    if !e3.has_unpark() {
        lemma_decision_waits(e, e3.blocked(true), c, a, cv);
    }
}

proof fn lemma_history_waits(
    h: Seq<Moment>,
    deeds: Seq<Deed>,
    i: int,
    j: int,
    a: int,
    condvar: int,
)
    requires
        is_history(h, deeds),
        0 <= i <= j < h.len(),
        waits(h[i].0, a, condvar),
        forall|k: int|
            i <= k < j ==> (#[trigger] h[k]).0.threads.active != Some(a as usize) && !notifies(
                deeds[k],
                condvar,
            ),
    ensures
        waits(h[j].0, a, condvar),
    decreases j - i,
{
    if i < j {
        lemma_history_waits(h, deeds, i, j - 1, a, condvar);
        assert(h[j - 1].0.threads.active != Some(a as usize));
        assert(did(h[j - 1], deeds[j - 1]) == Some(h[j - 1 + 1]));
        lemma_did_waits(h[j - 1], deeds[j - 1], a, condvar);
    }
}

/// A timed wait that no notification reaches ends by its timeout. Either it
/// wakes on its own at once, and reports the timeout; or its thread waits. Then
/// as long as the thread does not run and nobody notifies the condition
/// variable, it can be woken at any time, by its timeout where nothing else can
/// run, so that nothing deadlocks meanwhile; and when it runs again, the step
/// that it takes reports the timeout.
pub proof fn an_unnotified_timed_wait_times_out(
    h: Seq<Moment>,
    deeds: Seq<Deed>,
    i: int,
    j: int,
    w: Wait,
)
    requires
        is_history(h, deeds),
        0 <= i < j < h.len(),
        deeds[i] == (Deed::Advance { wait: w }),
        w.timed,
        w.phase == Phase::Decide,
        forall|k: int|
            i < k < j ==> (#[trigger] h[k]).0.threads.active != h[i].0.threads.active && !notifies(
                deeds[k],
                w.condvar as int,
            ),
    ensures
        h[i].0.spurred(w.condvar as int) matches Ok((_, spur)) && {
            let woken = Wait { phase: Phase::Woken, ..w };
            let e = h[j].0;
            &&& spur ==> (h[i].0.waited(h[i].1, w) matches Ok(s) && s.wait.phase == (
            Phase::Relock { timed_out: true }))
            &&& !spur && e.threads.active == h[i].0.threads.active ==> (e.waited(
                h[j].1,
                woken,
            ) matches Ok(s) ==> s.wait.phase == (Phase::Relock { timed_out: true }))
            &&& !spur && e.threads.active != h[i].0.threads.active ==> e.threads.can_run()
                || e.threads.timeouts_fire()
        },
{
    reveal(did);
    let (e, c) = h[i];
    let cv = w.condvar as int;
    let a = e.threads.me();
    assert(did(h[i], deeds[i]) == Some(h[i + 1]));
    if let Ok((_, spur)) = e.spurred(cv) {
        if !spur {
            lemma_decide_waits(e, c, w);
            if j > i + 1 {
                assert(h[i + 1].0.threads.active != h[i].0.threads.active);
                lemma_history_waits(h, deeds, i + 1, j, a, cv);
            }
            let n = h[j].0;
            assert(queued(n, a, cv));
            lemma_place_of(n.condvar(cv).waiters, a as usize, 0);
            if n.threads.active != e.threads.active {
                assert(parked(n.threads, a));
                let th = n.threads.threads[a];
                assert(th.runnable() || th.blocked_timed());
            }
        }
    }
}

} // verus!
