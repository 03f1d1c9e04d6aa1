//! Notifications, and the waits that they end.
use vstd::prelude::*;

use crate::rt::claims::Frozen;
use crate::rt::condvar::{place_of, CondvarModel};
use crate::rt::execution::ExecModel;
use crate::rt::fault::Fault;
use crate::rt::history::{did, is_history, Deed, Moment};
use crate::rt::thread::{Action, Operation};
use crate::rt::timeout::{
    lemma_cell_did_aside, lemma_fenced_aside, lemma_place_of, lemma_plain_did_aside,
    lemma_zeroed_aside, queued,
};
use crate::rt::vv::VersionVec;
use crate::rt::wait::{Event, Phase, Stepped, Wait};

verus! {

// ----- what a notification does -----
proof fn lemma_woke(e: ExecModel, waiters: Seq<usize>, n: int, u: int)
    requires
        e.threads.running(),
        0 <= n <= waiters.len(),
        0 <= u < e.threads.threads.len(),
    ensures
        ({
            let r = e.woke(waiters, n);
            let was = e.threads.threads[u];
            let now = r.threads.threads[u];
            let called = exists|k: int| 0 <= k < n && #[trigger] waiters[k] == u as usize;
            &&& r.objects == e.objects
            &&& r.threads.active == e.threads.active
            &&& r.threads.threads.len() == e.threads.threads.len()
            &&& called && !(was.state is Terminated) ==> now.runnable()
            &&& !called ==> now == was
            &&& was.runnable() ==> now.runnable()
            &&& was.state is Terminated ==> now.state is Terminated
            &&& e.threads.current().causality.below(r.threads.current().causality)
            &&& was.causality.below(now.causality)
            &&& called ==> e.threads.current().causality.below(now.causality)
        }),
    decreases n,
{
    let me = e.threads.current().causality;
    VersionVec::below_is_partial_order(me, me, me);
    let own = e.threads.threads[u].causality;
    VersionVec::below_is_partial_order(own, own, own);
    if n > 0 {
        lemma_woke(e, waiters, n - 1, u);
        lemma_woke(e, waiters, n - 1, e.threads.me());
        let r = e.woke(waiters, n - 1).threads;
        let waker = r.current().causality;
        let old = r.threads[u].causality;
        VersionVec::join_is_least_upper_bound(old, waker, waker);
        VersionVec::below_is_partial_order(me, waker, old.joined(waker));
        VersionVec::below_is_partial_order(me, old, old.joined(waker));
        VersionVec::below_is_partial_order(own, old, old.joined(waker));
        let (x, y) = (r.threads[e.threads.me()].causality, waker);
        VersionVec::below_is_partial_order(me, x, x.joined(y));
        let before = exists|k: int| 0 <= k < n - 1 && #[trigger] waiters[k] == u as usize;
        if before {
            let k = choose|k: int| 0 <= k < n - 1 && #[trigger] waiters[k] == u as usize;
            assert(waiters[k] == u as usize);
        } else if waiters[n - 1] == u as usize {
            assert(0 <= n - 1 < n);
        } else {
            assert forall|k: int| 0 <= k < n implies #[trigger] waiters[k] != u as usize by {}
        }
    }
}

/// Notifying one wakes the thread that has waited longest, and takes it, and
/// nobody else, out of the queue. The woken thread has seen what the notifying
/// one had. Where nobody waits, it does nothing.
pub proof fn notifying_one_wakes_the_first(e: ExecModel, object: int, u: int)
    requires
        e.threads.running(),
        e.is_condvar(object),
        0 <= u < e.threads.threads.len(),
    ensures
        ({
            let waiters = e.condvar(object).waiters;
            let n = e.notified_one(object);
            &&& n.is_condvar(object)
            &&& waiters.len() == 0 ==> n.condvar(object).waiters == waiters
                && n.threads.threads[u] == e.threads.threads[u]
            &&& waiters.len() > 0 ==> waiters == seq![waiters[0]] + n.condvar(object).waiters
            &&& waiters.len() > 0 && waiters[0] == u && !(
            e.threads.threads[u].state is Terminated) ==> n.threads.threads[u].runnable()
            &&& waiters.len() > 0 && waiters[0] == u ==> e.threads.current().causality.below(
                n.threads.threads[u].causality,
            )
            &&& waiters.len() > 0 && waiters[0] != u ==> n.threads.threads[u]
                == e.threads.threads[u]
        }),
{
    let c = e.condvar(object);
    let one = e.with_condvar(object, c.dequeued());
    lemma_woke(one, c.waiters, 0, u);
    if c.waiters.len() > 0 {
        lemma_woke(one, c.waiters, 1, u);
        assert(c.waiters =~= seq![c.waiters[0]] + c.waiters.skip(1));
        if c.waiters[0] == u {
            assert(c.waiters[0] == u as usize);
        } else {
            assert forall|k: int| 0 <= k < 1 implies #[trigger] c.waiters[k] != u as usize by {}
        }
    }
}

/// Notifying all wakes every thread that waits, and nobody else, and leaves
/// nobody in the queue. The woken threads have seen what the notifying one had.
pub proof fn notifying_all_wakes_everyone(e: ExecModel, object: int, u: int)
    requires
        e.threads.running(),
        e.is_condvar(object),
        0 <= u < e.threads.threads.len(),
    ensures
        ({
            let n = e.notified_all(object);
            &&& n.is_condvar(object)
            &&& n.condvar(object).waiters.len() == 0
            &&& queued(e, u, object) && !(e.threads.threads[u].state is Terminated)
                ==> n.threads.threads[u].runnable()
            &&& queued(e, u, object) ==> e.threads.current().causality.below(
                n.threads.threads[u].causality,
            )
            &&& !queued(e, u, object) ==> n.threads.threads[u] == e.threads.threads[u]
        }),
{
    let c = e.condvar(object);
    let all = e.with_condvar(object, CondvarModel { waiters: Seq::empty(), ..c });
    lemma_woke(all, c.waiters, c.waiters.len() as int, u);
    if queued(e, u, object) {
        let k = choose|k: int| 0 <= k < c.waiters.len() && c.waiters[k] == u as usize;
        assert(c.waiters[k] == u as usize);
    } else {
        assert forall|k: int| 0 <= k < c.waiters.len() implies #[trigger] c.waiters[k]
            != u as usize by {
            assert(c.waiters.contains(c.waiters[k]));
        }
    }
}

// ----- a wait that was notified -----
/// The condition variable does not count thread `a` among its waiters.
pub open spec fn called(e: ExecModel, a: int, condvar: int) -> bool {
    e.is_condvar(condvar) && !queued(e, a, condvar)
}

proof fn lemma_scheduled_called(e: ExecModel, c: Seq<Frozen>, a: int, condvar: int)
    requires
        forall|i: int|
            0 <= i < e.threads.threads.len() ==> ((#[trigger] e.threads.threads[i]).operation matches Some(
            op,
        ) ==> op.object < e.objects.len()),
        called(e, a, condvar),
    ensures
        e.scheduled(c) matches Ok(s) ==> called(s.after, a, condvar),
{
    let t = e.threads.rescued();
    let (p1, c1) = e.raced_from(e.path, c, 0);
    if let Ok(s) = e.scheduled(c) {
        if let Ok((p2, chosen, covered)) = p1.thread_branch(c1, t.seed()) {
            if let Some(next) = chosen {
                assert(0 <= next < t.threads.len());
                assert(t.threads[next].operation == e.threads.threads[next].operation);
                assert(s.after.condvar(condvar).waiters == e.condvar(condvar).waiters);
            }
        }
    }
}

proof fn lemma_decision_called(e: ExecModel, n: ExecModel, c: Seq<Frozen>, a: int, condvar: int)
    requires
        e.running(c),
        called(n, a, condvar),
        n.objects.len() == e.objects.len(),
        n.threads.threads.len() == e.threads.threads.len(),
        forall|i: int|
            0 <= i < n.threads.threads.len() && (#[trigger] n.threads.threads[i]).operation
                != e.threads.threads[i].operation ==> (n.threads.threads[i].operation matches Some(
            op,
        ) ==> op.object < e.objects.len()),
    ensures
        n.scheduled(c) matches Ok(s) ==> called(s.after, a, condvar),
{
    assert forall|i: int| 0 <= i < n.threads.threads.len() implies ((
    #[trigger] n.threads.threads[i]).operation matches Some(op) ==> op.object
        < n.objects.len()) by {
        assert(e.threads.threads[i].operation matches Some(op) ==> op.object < e.objects.len());
    }
    lemma_scheduled_called(n, c, a, condvar);
}

proof fn lemma_begun_called(
    e: ExecModel,
    c: Seq<Frozen>,
    object: usize,
    action: Action,
    a: int,
    condvar: int,
)
    requires
        e.running(c),
        object < e.objects.len(),
        called(e, a, condvar),
    ensures
        e.begun(c, object, action) matches Ok(s) ==> called(s.after, a, condvar),
{
    let n = if e.is_cell(object as int) {
        e.with_cell(object as int, e.cell(object as int).prepared(action))
    } else {
        e
    };
    let m = n.announced(Some(Operation { object, action }));
    assert(m.condvar(condvar) == e.condvar(condvar));
    lemma_decision_called(e, m, c, a, condvar);
}

proof fn lemma_left(c: CondvarModel, b: usize, a: usize)
    requires
        !c.waiters.contains(a),
    ensures
        !c.left(b).0.waiters.contains(a),
{
    lemma_place_of(c.waiters, b, 0);
    if let Some(k) = place_of(c.waiters, b, 0) {
        let rest = c.waiters.remove(k);
        assert forall|i: int| 0 <= i < rest.len() implies rest[i] != a by {
            assert(c.waiters.contains(rest[i])) by {
                if i < k {
                    assert(c.waiters[i] == rest[i]);
                } else {
                    assert(c.waiters[i + 1] == rest[i]);
                }
            }
        }
    }
}

proof fn lemma_advance_called(e: ExecModel, c: Seq<Frozen>, w: Wait, a: int, condvar: int)
    requires
        e.running(c),
        0 <= a <= usize::MAX,
        e.threads.me() != a,
        e.is_condvar(w.condvar as int),
        e.is_mutex(w.mutex as int),
        called(e, a, condvar),
    ensures
        e.waited(c, w) matches Ok(s) ==> called(s.after, a, condvar),
{
    let cv = w.condvar as int;
    let me = e.threads.me() as usize;
    match w.phase {
        Phase::Announce => {
            lemma_begun_called(e, c, w.condvar, Action::Opaque, a, condvar);
        },
        Phase::Decide => {
            if let Ok((e1, spur)) = e.spurred(cv) {
                assert(called(e1, a, condvar));
                if spur {
                    let e2 = e1.unlocked(w.mutex);
                    assert(called(e2, a, condvar));
                    lemma_decision_called(e, e2.contending(w.mutex), c, a, condvar);
                } else {
                    let e2 = e1.enqueued(cv);
                    let before = e1.condvar(cv).waiters;
                    assert(called(e2, a, condvar)) by {
                        let after = e2.condvar(condvar).waiters;
                        assert forall|i: int| 0 <= i < after.len() implies after[i]
                            != a as usize by {
                            if i < e1.condvar(condvar).waiters.len() {
                                assert(e1.condvar(condvar).waiters.contains(after[i]));
                            }
                        }
                    }
                    let e3 = e2.unlocked(w.mutex);
                    assert(called(e3, a, condvar));
                    lemma_decision_called(e, e3.blocked(w.timed), c, a, condvar);
                }
            }
        },
        Phase::Woken => {
            lemma_left(e.condvar(condvar), me, a as usize);
            let e1 = e.dequeued_self(cv).0;
            assert(called(e1, a, condvar));
            lemma_decision_called(e, e1.contending(w.mutex), c, a, condvar);
        },
        Phase::Relock { .. } => {},
    }
}

proof fn lemma_sync_called(m: Moment, deed: Deed, a: int, condvar: int)
    requires
        deed is Lock || deed is Unlock || deed is NotifyOne || deed is NotifyAll
            || deed is Unpark,
        called(m.0, a, condvar),
    ensures
        did(m, deed) matches Some(n) ==> called(n.0, a, condvar),
{
    reveal(did);
    let (e, c) = m;
    if let Some((n, d)) = did(m, deed) {
        match deed {
            Deed::NotifyOne { object } | Deed::NotifyAll { object } => {
                let o = object as int;
                let cv = e.condvar(o);
                let one = e.with_condvar(o, cv.dequeued());
                let all = e.with_condvar(o, CondvarModel { waiters: Seq::empty(), ..cv });
                lemma_woke(one, cv.waiters, 0, 0);
                if cv.waiters.len() > 0 {
                    lemma_woke(one, cv.waiters, 1, 0);
                }
                lemma_woke(all, cv.waiters, cv.waiters.len() as int, 0);
                let before = e.condvar(condvar).waiters;
                let after = n.condvar(condvar).waiters;
                assert forall|i: int| 0 <= i < after.len() implies after[i] != a as usize by {
                    assert(before.contains(after[i])) by {
                        if o == condvar {
                            assert(before[i + 1] == after[i] || before[i] == after[i]);
                        } else {
                            assert(before[i] == after[i]);
                        }
                    }
                }
            },
            _ => {},
        }
    }
}

proof fn lemma_decided_called(m: Moment, deed: Deed, a: int, condvar: int)
    requires
        deed is BeginLock || deed is Park || deed is Yield || deed is Done,
        called(m.0, a, condvar),
    ensures
        did(m, deed) matches Some(n) ==> called(n.0, a, condvar),
{
    reveal(did);
    let (e, c) = m;
    if did(m, deed) is Some {
        match deed {
            Deed::BeginLock { object } => {
                lemma_decision_called(e, e.contending(object), c, a, condvar);
            },
            Deed::Park { timed } => {
                lemma_decision_called(e, e.blocked(timed), c, a, condvar);
            },
            Deed::Yield => {
                lemma_decision_called(e, e.yielding(), c, a, condvar);
            },
            _ => {
                lemma_decision_called(e, e.ending(), c, a, condvar);
            },
        }
    }
}

/// Only its own step puts a thread into the queue.
proof fn lemma_did_called(m: Moment, deed: Deed, a: int, condvar: int)
    requires
        0 <= a <= usize::MAX,
        m.0.threads.active != Some(a as usize),
        called(m.0, a, condvar),
    ensures
        did(m, deed) matches Some(n) ==> called(n.0, a, condvar),
{
    reveal(did);
    if let Some(n) = did(m, deed) {
        match deed {
            Deed::Load { .. } | Deed::Store { .. } | Deed::Rmw { .. } => {
                lemma_cell_did_aside(m, deed);
            },
            Deed::Begin { object, action } => {
                lemma_begun_called(m.0, m.1, object, action, a, condvar);
            },
            Deed::Advance { wait } => {
                lemma_advance_called(m.0, m.1, wait, a, condvar);
            },
            Deed::BeginLock { .. } | Deed::Park { .. } | Deed::Yield | Deed::Done => {
                lemma_decided_called(m, deed, a, condvar);
            },
            Deed::Lock { .. }
            | Deed::Unlock { .. }
            | Deed::NotifyOne { .. }
            | Deed::NotifyAll { .. }
            | Deed::Unpark { .. } => {
                lemma_sync_called(m, deed, a, condvar);
            },
            Deed::Fence { order } => {
                lemma_fenced_aside(m.0, order);
            },
            Deed::Zero { base, len } => {
                lemma_zeroed_aside(m.0, m.1, base, len);
            },
            _ => {
                lemma_plain_did_aside(m, deed);
            },
        }
    }
}

proof fn lemma_history_called(
    h: Seq<Moment>,
    deeds: Seq<Deed>,
    i: int,
    j: int,
    a: int,
    condvar: int,
)
    requires
        is_history(h, deeds),
        0 <= i <= j < h.len(),
        0 <= a <= usize::MAX,
        called(h[i].0, a, condvar),
        forall|k: int| i <= k < j ==> (#[trigger] h[k]).0.threads.active != Some(a as usize),
    ensures
        called(h[j].0, a, condvar),
    decreases j - i,
{
    if i < j {
        lemma_history_called(h, deeds, i, j - 1, a, condvar);
        assert(h[j - 1].0.threads.active != Some(a as usize));
        assert(did(h[j - 1], deeds[j - 1]) == Some(h[j - 1 + 1]));
        lemma_did_called(h[j - 1], deeds[j - 1], a, condvar);
    }
}

/// The wait reports no timeout, now or later.
pub open spec fn in_time(r: Result<Stepped, Fault>) -> bool {
    r matches Ok(s) ==> {
        &&& s.event matches Event::Finished { timed_out } ==> !timed_out
        &&& s.wait.phase matches Phase::Relock { timed_out } ==> !timed_out
    }
}

/// A wait that a notification woke reports no timeout, timed or not. The
/// notification took the thread out of the queue; since then others have run,
/// and when the thread runs again at moment `j` and at last takes the mutex at
/// moment `l`, the wait is not timed out.
pub proof fn a_notified_wait_does_not_time_out(
    h: Seq<Moment>,
    deeds: Seq<Deed>,
    i: int,
    j: int,
    l: int,
    w: Wait,
)
    requires
        is_history(h, deeds),
        0 <= i < j < l < h.len(),
        w.phase == Phase::Woken,
        h[j].0.threads.active is Some,
        0 <= h[j].0.threads.me() < h[j].0.threads.threads.len(),
        deeds[i] == (Deed::NotifyAll { object: w.condvar }) || (deeds[i] == (Deed::NotifyOne {
            object: w.condvar,
        }) && !queued(h[i + 1].0, h[j].0.threads.me(), w.condvar as int)),
        forall|k: int|
            i < k < j ==> (#[trigger] h[k]).0.threads.active != h[j].0.threads.active,
    ensures
        h[j].0.waited(h[j].1, w) matches Ok(s) ==> {
            &&& s.wait == (Wait { phase: Phase::Relock { timed_out: false }, ..w })
            &&& h[l].0.waited(h[l].1, s.wait) matches Ok(last) ==> last.event == (
            Event::Finished { timed_out: false })
        },
{
    reveal(did);
    let a = h[j].0.threads.me();
    let cv = w.condvar as int;
    let e = h[i].0;
    assert(did(h[i], deeds[i]) == Some(h[i + 1]));
    let waiters = e.condvar(cv).waiters;
    assert(e.is_condvar(cv));
    let one = e.with_condvar(cv, e.condvar(cv).dequeued());
    let all = e.with_condvar(cv, CondvarModel { waiters: Seq::empty(), ..e.condvar(cv) });
    lemma_woke(one, waiters, 0, 0);
    if waiters.len() > 0 {
        lemma_woke(one, waiters, 1, 0);
    }
    lemma_woke(all, waiters, waiters.len() as int, 0);
    assert(called(h[i + 1].0, a, cv));
    lemma_history_called(h, deeds, i + 1, j, a, cv);
    lemma_place_of(h[j].0.condvar(cv).waiters, a as usize, 0);
    if let Some(k) = place_of(h[j].0.condvar(cv).waiters, a as usize, 0) {
        assert(h[j].0.condvar(cv).waiters.contains(a as usize));
    }
}

/// The wait has no timeout, and has none to report.
pub open spec fn untimed(w: Wait) -> bool {
    !w.timed && (w.phase matches Phase::Relock { timed_out } ==> !timed_out)
}

/// A wait without a timeout never reports one, whatever wakes it.
pub proof fn an_untimed_wait_never_times_out(e: ExecModel, c: Seq<Frozen>, w: Wait)
    requires
        untimed(w),
    ensures
        in_time(e.waited(c, w)),
        e.waited(c, w) matches Ok(s) ==> untimed(s.wait),
{
}

proof fn lemma_scheduled_lock(e: ExecModel, n: ExecModel, c: Seq<Frozen>, o: int)
    requires
        e.running(c),
        n.is_mutex(o),
        n.objects.len() == e.objects.len(),
        n.threads.threads.len() == e.threads.threads.len(),
        forall|i: int|
            0 <= i < n.threads.threads.len() && (#[trigger] n.threads.threads[i]).operation
                != e.threads.threads[i].operation ==> (n.threads.threads[i].operation matches Some(
            op,
        ) ==> op.object < e.objects.len()),
    ensures
        n.scheduled(c) matches Ok(s) ==> s.after.is_mutex(o) && s.after.mutex(o).lock == n.mutex(
            o,
        ).lock,
{
    let t = n.threads.rescued();
    let (p1, c1) = n.raced_from(n.path, c, 0);
    if let Ok(s) = n.scheduled(c) {
        if let Ok((p2, chosen, covered)) = p1.thread_branch(c1, t.seed()) {
            if let Some(next) = chosen {
                assert(0 <= next < t.threads.len());
                assert(t.threads[next].operation == n.threads.threads[next].operation);
                assert(e.threads.threads[next].operation matches Some(op) ==> op.object
                    < e.objects.len());
            }
        }
    }
}

/// A wait keeps to its condition variable and its mutex and goes through its
/// phases in order: it gives the mutex up when it begins to wait, and ends, with
/// the mutex held, when and only when it has taken it again.
pub proof fn a_wait_goes_through_its_phases(e: ExecModel, c: Seq<Frozen>, w: Wait)
    requires
        e.running(c),
        e.is_condvar(w.condvar as int),
        e.is_mutex(w.mutex as int),
    ensures
        e.waited(c, w) matches Ok(s) ==> {
            let next = s.wait;
            let m = w.mutex as int;
            &&& next.condvar == w.condvar && next.mutex == w.mutex && next.timed == w.timed
            &&& w.phase is Announce ==> next.phase is Decide && s.after.mutex(m).lock == e.mutex(
                m,
            ).lock
            &&& w.phase is Decide ==> s.after.mutex(m).lock is None && (next.phase is Woken
                || next.phase == (Phase::Relock { timed_out: w.timed }))
            &&& w.phase is Woken ==> next.phase is Relock && s.after.mutex(m).lock == e.mutex(
                m,
            ).lock
            &&& s.event is Finished <==> w.phase is Relock
            &&& w.phase is Relock ==> e.mutex(m).lock is None && s.after.mutex(m).lock == Some(
                e.threads.me() as usize,
            )
        },
{
    let cv = w.condvar as int;
    let m = w.mutex as int;
    if e.waited(c, w) is Ok {
        match w.phase {
            Phase::Announce => {
                let op = Operation { object: w.condvar, action: Action::Opaque };
                lemma_scheduled_lock(e, e.announced(Some(op)), c, m);
            },
            Phase::Decide => {
                if let Ok((e1, spur)) = e.spurred(cv) {
                    if spur {
                        let e2 = e1.unlocked(w.mutex);
                        lemma_scheduled_lock(e, e2.contending(w.mutex), c, m);
                    } else {
                        let e2 = e1.enqueued(cv).unlocked(w.mutex);
                        lemma_scheduled_lock(e, e2.blocked(w.timed), c, m);
                    }
                }
            },
            Phase::Woken => {
                let e1 = e.dequeued_self(cv).0;
                lemma_scheduled_lock(e, e1.contending(w.mutex), c, m);
            },
            Phase::Relock { .. } => {},
        }
    }
}

} // verus!
