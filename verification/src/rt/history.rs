//! What an execution does, operation by operation, and what holds of all of
//! it.
use vstd::prelude::*;

use crate::rt::atomic::state::StateModel;
use crate::rt::claims::Frozen;
use crate::rt::condvar::CondvarModel;
use crate::rt::execution::{ExecModel, Scheduled};
use crate::rt::fault::Fault;
use crate::rt::mutex::Mutex;
use crate::rt::object::ObjectModel;
use crate::rt::order::Order;
use crate::rt::path::PathModel;
use crate::rt::thread::Action;
use crate::rt::wait::{Phase, Wait};

verus! {

/// An operation of the active thread.
pub enum Deed {
    NewCell { value: u128 },
    NewMutex { lock: Option<usize> },
    NewCondvar,
    Register { id: u64, init: u128 },
    Materialize { addr: u64 },
    Begin { object: usize, action: Action },
    Load { object: usize, mask: u128, order: Order, coherent: bool },
    Store { object: usize, mask: u128, value: u128, order: Order },
    /// A read-modify-write that wrote `next`, or none.
    Rmw {
        object: usize,
        read: u128,
        write: u128,
        success: Order,
        failure: Order,
        next: Option<u128>,
    },
    UnsyncLoad { object: usize },
    BeginMut { object: usize },
    EndMut { object: usize, value: u128, unwinding: bool },
    Fence { order: Order },
    BeginLock { object: usize },
    Lock { object: usize },
    Unlock { object: usize },
    NotifyOne { object: usize },
    NotifyAll { object: usize },
    /// One step of a wait.
    Advance { wait: Wait },
    Park { timed: bool },
    Unpark { thread: usize },
    Yield,
    Done,
    Spawn,
    Publish { base: u64, len: u64 },
    Unpublish { base: u64, len: u64 },
    Zero { base: u64, len: u64 },
    /// The exploration is switched on or off.
    Steer { path: PathModel },
}

/// The execution and the table of claims.
pub type Moment = (ExecModel, Seq<Frozen>);

pub open spec fn after_decision(r: Result<Scheduled, Fault>) -> Option<Moment> {
    match r {
        Ok(s) => Some((s.after, s.claims)),
        Err(_) => None,
    }
}

pub open spec fn after_deed(r: Result<ExecModel, Fault>, c: Seq<Frozen>) -> Option<Moment> {
    match r {
        Ok(e) => Some((e, c)),
        Err(_) => None,
    }
}

/// What the operation leads to, where it may be called and does not fail.
#[verifier::opaque]
pub open spec fn did(m: Moment, deed: Deed) -> Option<Moment> {
    let (e, c) = m;
    if !e.running(c) {
        None
    } else {
        match deed {
            Deed::NewCell { value } => Some(
                (e.with_new_cell(StateModel::created(e.threads, value)), c),
            ),
            Deed::NewMutex { lock } => Some(
                (
                    ExecModel {
                        objects: e.objects.push(
                            ObjectModel::Mutex(Mutex { lock, ..Mutex::fresh() }),
                        ),
                        ..e
                    },
                    c,
                ),
            ),
            Deed::NewCondvar => Some(
                (
                    ExecModel {
                        objects: e.objects.push(ObjectModel::Condvar(CondvarModel::fresh())),
                        ..e
                    },
                    c,
                ),
            ),
            Deed::Register { id, init } => Some((e.registered(id, init).0, c)),
            Deed::Materialize { addr } => match e.materialized_at(addr) {
                Ok((n, _)) => Some((n, c)),
                Err(_) => None,
            },
            Deed::Begin { object, action } => if object < e.objects.len() {
                after_decision(e.begun(c, object, action))
            } else {
                None
            },
            Deed::Load { object, mask, order, coherent } => if e.is_cell(object as int) {
                match e.loaded(object as int, mask, order, coherent) {
                    Ok((n, _)) => Some((n, c)),
                    Err(_) => None,
                }
            } else {
                None
            },
            Deed::Store { object, mask, value, order } => if e.is_cell(object as int) {
                after_deed(e.stored(object as int, mask, value, order), c)
            } else {
                None
            },
            Deed::Rmw { object, read, write, success, failure, next } => if e.is_cell(
                object as int,
            ) {
                match (e.rmw_begun(object as int, read, write, success, failure), next) {
                    (Err(_), _) => None,
                    (Ok(half), Some(value)) => after_deed(
                        e.rmw_done(object as int, half, value, write, success),
                        c,
                    ),
                    (Ok(half), None) => Some((e.rmw_undone(object as int, half, failure), c)),
                }
            } else {
                None
            },
            Deed::UnsyncLoad { object } => if e.is_cell(object as int) {
                match e.unsync_loaded(object as int) {
                    Ok((n, _)) => Some((n, c)),
                    Err(_) => None,
                }
            } else {
                None
            },
            Deed::BeginMut { object } => if e.is_cell(object as int) {
                match e.mut_begun(object as int) {
                    Ok((n, _)) => Some((n, c)),
                    Err(_) => None,
                }
            } else {
                None
            },
            Deed::EndMut { object, value, unwinding } => if e.is_cell(object as int) {
                after_deed(e.mut_ended(object as int, value, unwinding), c)
            } else {
                None
            },
            Deed::Fence { order } => after_deed(e.fenced(order), c),
            Deed::BeginLock { object } => if e.is_mutex(object as int) {
                after_decision(e.contending(object).scheduled(c))
            } else {
                None
            },
            Deed::Lock { object } => if e.is_mutex(object as int) {
                after_deed(e.locked(object), c)
            } else {
                None
            },
            Deed::Unlock { object } => if e.is_mutex(object as int) {
                Some((e.unlocked(object), c))
            } else {
                None
            },
            Deed::NotifyOne { object } => if e.is_condvar(object as int) {
                Some((e.notified_one(object as int), c))
            } else {
                None
            },
            Deed::NotifyAll { object } => if e.is_condvar(object as int) {
                Some((e.notified_all(object as int), c))
            } else {
                None
            },
            Deed::Advance { wait } => if e.is_condvar(wait.condvar as int) && e.is_mutex(
                wait.mutex as int,
            ) {
                match e.waited(c, wait) {
                    Ok(s) => Some((s.after, s.claims)),
                    Err(_) => None,
                }
            } else {
                None
            },
            Deed::Park { timed } => if e.has_unpark() {
                Some((e.unpark_consumed(), c))
            } else {
                after_decision(e.blocked(timed).scheduled(c))
            },
            Deed::Unpark { thread } => if thread < e.threads.threads.len() {
                Some((ExecModel { threads: e.threads.unparked(thread as int), ..e }, c))
            } else {
                None
            },
            Deed::Yield => after_decision(e.yielding().scheduled(c)),
            Deed::Done => after_decision(e.ending().scheduled(c)),
            Deed::Spawn => Some((e.spawned(), c)),
            Deed::Publish { base, len } => Some((e.publishing(base, len), c)),
            Deed::Unpublish { base, len } => Some((e.unpublishing(base, len), c)),
            Deed::Zero { base, len } => if e.objects.len() <= usize::MAX {
                Some((e.zeroed(base, len), c))
            } else {
                None
            },
            Deed::Steer { path } => Some((ExecModel { path, ..e }, c)),
        }
    }
}

/// The operations `deeds` led through the moments `h`.
pub open spec fn is_history(h: Seq<Moment>, deeds: Seq<Deed>) -> bool {
    &&& h.len() == deeds.len() + 1
    &&& forall|i: int| 0 <= i < deeds.len() ==> #[trigger] did(h[i], deeds[i]) == Some(h[i + 1])
}

// ----- condition variables -----
/// What a condition variable knows of its self-wakes is kept.
pub open spec fn spurs_kept(e: ExecModel, n: ExecModel) -> bool {
    forall|o: int| #[trigger]
        e.is_condvar(o) ==> n.is_condvar(o) && (e.condvar(o).did_spur ==> n.condvar(o).did_spur)
}

/// The operation is the step of a wait on `object` that wakes on its own:
/// spuriously, or by its timeout.
pub open spec fn wakes_itself(m: Moment, deed: Deed, object: usize) -> bool {
    deed matches Deed::Advance { wait } && wait.phase == Phase::Decide && wait.condvar == object && (
    m.0.spurred(object as int) matches Ok((_, spur)) && spur)
}

proof fn lemma_object_keeps(e: ExecModel, n: ExecModel, i: int, o: ObjectModel)
    requires
        0 <= i < e.objects.len(),
        n.objects == e.objects.update(i, o),
        e.objects[i] matches ObjectModel::Condvar(a) ==> (o matches ObjectModel::Condvar(b) && (
        a.did_spur ==> b.did_spur)),
    ensures
        spurs_kept(e, n),
{
    assert forall|k: int| #[trigger] e.is_condvar(k) implies n.is_condvar(k) && (e.condvar(
        k,
    ).did_spur ==> n.condvar(k).did_spur) by {}
}

proof fn lemma_kept_trans(a: ExecModel, b: ExecModel, c: ExecModel)
    requires
        spurs_kept(a, b),
        spurs_kept(b, c),
    ensures
        spurs_kept(a, c),
{
    assert forall|k: int| #[trigger] a.is_condvar(k) implies c.is_condvar(k) && (a.condvar(
        k,
    ).did_spur ==> c.condvar(k).did_spur) by {
        assert(b.is_condvar(k));
    }
}

proof fn lemma_same_objects(e: ExecModel, n: ExecModel)
    requires
        n.objects == e.objects,
    ensures
        spurs_kept(e, n),
{
}

proof fn lemma_scheduled_keeps(e: ExecModel, c: Seq<Frozen>)
    requires
        forall|i: int|
            0 <= i < e.threads.threads.len() ==> ((#[trigger] e.threads.threads[i]).operation matches Some(
            op,
        ) ==> op.object < e.objects.len()),
    ensures
        e.scheduled(c) matches Ok(s) ==> spurs_kept(e, s.after),
{
    let (p1, c1) = e.raced_from(e.path, c, 0);
    let t = e.threads.rescued();
    if let Ok(s) = e.scheduled(c) {
        if let Ok((p2, chosen, covered)) = p1.thread_branch(c1, t.seed()) {
            if let Some(next) = chosen {
                assert(0 <= next < t.threads.len());
                assert(t.threads[next].operation == e.threads.threads[next].operation);
                match t.threads[next].operation {
                    Some(op) => {
                        assert(s.after.objects == e.objects.update(
                            op.object as int,
                            s.after.objects[op.object as int],
                        ));
                        lemma_object_keeps(
                            e,
                            s.after,
                            op.object as int,
                            s.after.objects[op.object as int],
                        );
                    },
                    None => {
                        lemma_same_objects(e, s.after);
                    },
                }
            } else {
                lemma_same_objects(e, s.after);
            }
        }
    }
}

/// A decision with the active thread replaced by one whose operation is valid.
proof fn lemma_decision_keeps(e: ExecModel, n: ExecModel, c: Seq<Frozen>)
    requires
        e.running(c),
        spurs_kept(e, n),
        n.objects.len() == e.objects.len(),
        n.threads.threads.len() == e.threads.threads.len(),
        forall|i: int|
            0 <= i < n.threads.threads.len() && (#[trigger] n.threads.threads[i]).operation
                != e.threads.threads[i].operation ==> (n.threads.threads[i].operation matches Some(
            op,
        ) ==> op.object < e.objects.len()),
    ensures
        n.scheduled(c) matches Ok(s) ==> spurs_kept(e, s.after),
{
    assert forall|i: int| 0 <= i < n.threads.threads.len() implies ((
    #[trigger] n.threads.threads[i]).operation matches Some(op) ==> op.object
        < n.objects.len()) by {
        assert(e.threads.threads[i].operation matches Some(op) ==> op.object < e.objects.len());
    }
    lemma_scheduled_keeps(n, c);
    if let Ok(s) = n.scheduled(c) {
        lemma_kept_trans(e, n, s.after);
    }
}

proof fn lemma_cell_keeps(e: ExecModel, n: ExecModel, object: int)
    requires
        e.is_cell(object),
        n.objects == e.objects.update(object, n.objects[object]),
    ensures
        spurs_kept(e, n),
{
    lemma_object_keeps(e, n, object, n.objects[object]);
}

proof fn lemma_begun_keeps(e: ExecModel, c: Seq<Frozen>, object: usize, action: Action)
    requires
        e.running(c),
        object < e.objects.len(),
    ensures
        e.begun(c, object, action) matches Ok(s) ==> spurs_kept(e, s.after),
{
    let n = if e.is_cell(object as int) {
        e.with_cell(object as int, e.cell(object as int).prepared(action))
    } else {
        e
    };
    let operation = Some(crate::rt::thread::Operation { object, action });
    if e.is_cell(object as int) {
        lemma_cell_keeps(e, n, object as int);
    }
    lemma_same_objects(n, n.announced(operation));
    lemma_kept_trans(e, n, n.announced(operation));
    lemma_decision_keeps(e, n.announced(operation), c);
}

proof fn lemma_woke_keeps(e: ExecModel, waiters: Seq<usize>, n: int)
    ensures
        e.woke(waiters, n).objects == e.objects,
        e.woke(waiters, n).path == e.path,
    decreases n,
{
    if n > 0 {
        lemma_woke_keeps(e, waiters, n - 1);
    }
}

proof fn lemma_waited_keeps(e: ExecModel, c: Seq<Frozen>, w: Wait)
    requires
        e.running(c),
        e.is_condvar(w.condvar as int),
        e.is_mutex(w.mutex as int),
    ensures
        e.waited(c, w) matches Ok(s) ==> {
            &&& spurs_kept(e, s.after)
            &&& wakes_itself((e, c), Deed::Advance { wait: w }, w.condvar) ==> s.after.condvar(
                w.condvar as int,
            ).did_spur
        },
{
    let cv = w.condvar as int;
    let mx = w.mutex as int;
    if let Ok(s) = e.waited(c, w) {
        match w.phase {
            Phase::Announce => {
                lemma_begun_keeps(e, c, w.condvar, Action::Opaque);
            },
            Phase::Decide => {
                let (e1, spur) = e.spurred(cv)->Ok_0;
                if e.condvar(cv).did_spur || !spur {
                    lemma_same_objects(e, e1);
                } else {
                    lemma_object_keeps(e, e1, cv, e1.objects[cv]);
                }
                let e2 = if spur {
                    e1
                } else {
                    e1.enqueued(cv)
                };
                if spur {
                    lemma_same_objects(e1, e2);
                } else {
                    lemma_object_keeps(e1, e2, cv, e2.objects[cv]);
                }
                lemma_kept_trans(e, e1, e2);
                let e3 = e2.unlocked(w.mutex);
                lemma_object_keeps(e2, e3, mx, e3.objects[mx]);
                lemma_kept_trans(e, e2, e3);
                if spur {
                    let e4 = e3.contending(w.mutex);
                    lemma_same_objects(e3, e4);
                    lemma_kept_trans(e, e3, e4);
                    lemma_kept_trans(e1, e2, e3);
                    lemma_kept_trans(e1, e3, e4);
                    lemma_decision_keeps(e, e4, c);
                    assert(e1.condvar(cv).did_spur);
                    assert(e4.is_condvar(cv) && e4.condvar(cv).did_spur) by {
                        assert(e1.is_condvar(cv));
                    }
                    assert forall|i: int| 0 <= i < e4.threads.threads.len() implies ((
                    #[trigger] e4.threads.threads[i]).operation matches Some(op) ==> op.object
                        < e4.objects.len()) by {
                        assert(e.threads.threads[i].operation matches Some(op) ==> op.object
                            < e.objects.len());
                    }
                    lemma_scheduled_keeps(e4, c);
                } else if e3.has_unpark() {
                    lemma_same_objects(e3, e3.unpark_consumed());
                    lemma_kept_trans(e, e3, e3.unpark_consumed());
                } else {
                    let e4 = e3.blocked(w.timed);
                    lemma_same_objects(e3, e4);
                    lemma_kept_trans(e, e3, e4);
                    lemma_decision_keeps(e, e4, c);
                }
            },
            Phase::Woken => {
                let e1 = e.dequeued_self(cv).0;
                lemma_object_keeps(e, e1, cv, e1.objects[cv]);
                let e2 = e1.contending(w.mutex);
                lemma_same_objects(e1, e2);
                lemma_kept_trans(e, e1, e2);
                lemma_decision_keeps(e, e2, c);
            },
            Phase::Relock { timed_out } => {
                lemma_object_keeps(e, s.after, mx, s.after.objects[mx]);
            },
        }
    }
}

/// The operations on a cell.
spec fn on_cell(deed: Deed) -> Option<usize> {
    match deed {
        Deed::Load { object, .. } => Some(object),
        Deed::Store { object, .. } => Some(object),
        Deed::Rmw { object, .. } => Some(object),
        Deed::UnsyncLoad { object } => Some(object),
        Deed::BeginMut { object } => Some(object),
        Deed::EndMut { object, .. } => Some(object),
        _ => None,
    }
}

#[verifier::rlimit(40)]
proof fn lemma_cell_did_keeps(m: Moment, deed: Deed)
    requires
        on_cell(deed) is Some,
    ensures
        did(m, deed) matches Some(n) ==> spurs_kept(m.0, n.0),
{
    reveal(did);
    let (e, c) = m;
    let object = on_cell(deed)->Some_0 as int;
    if let Some((n, d)) = did(m, deed) {
        assert(e.is_cell(object));
        assert(n.objects == e.objects.update(object, n.objects[object]));
        lemma_cell_keeps(e, n, object);
    }
}

proof fn lemma_decided_keeps(m: Moment, deed: Deed)
    requires
        deed is Begin || deed is BeginLock || deed is Park || deed is Yield || deed is Done
            || deed is Advance,
    ensures
        did(m, deed) matches Some(n) ==> spurs_kept(m.0, n.0),
{
    reveal(did);
    let (e, c) = m;
    if let Some((n, d)) = did(m, deed) {
        match deed {
            Deed::Begin { object, action } => {
                lemma_begun_keeps(e, c, object, action);
            },
            Deed::BeginLock { object } => {
                lemma_same_objects(e, e.contending(object));
                lemma_decision_keeps(e, e.contending(object), c);
            },
            Deed::Advance { wait } => {
                lemma_waited_keeps(e, c, wait);
            },
            Deed::Park { timed } => {
                if e.has_unpark() {
                    lemma_same_objects(e, n);
                } else {
                    lemma_same_objects(e, e.blocked(timed));
                    lemma_decision_keeps(e, e.blocked(timed), c);
                }
            },
            Deed::Yield => {
                lemma_same_objects(e, e.yielding());
                lemma_decision_keeps(e, e.yielding(), c);
            },
            _ => {
                lemma_same_objects(e, e.ending());
                lemma_decision_keeps(e, e.ending(), c);
            },
        }
    }
}

proof fn lemma_sync_did_keeps(m: Moment, deed: Deed)
    requires
        deed is Lock || deed is Unlock || deed is NotifyOne || deed is NotifyAll,
    ensures
        did(m, deed) matches Some(n) ==> spurs_kept(m.0, n.0),
{
    reveal(did);
    let (e, c) = m;
    if let Some((n, d)) = did(m, deed) {
        match deed {
            Deed::Lock { object } | Deed::Unlock { object } => {
                lemma_object_keeps(e, n, object as int, n.objects[object as int]);
            },
            Deed::NotifyOne { object } | Deed::NotifyAll { object } => {
                let o = object as int;
                let cv = e.condvar(o);
                let e1 = match deed {
                    Deed::NotifyOne { .. } => e.with_condvar(o, cv.dequeued()),
                    _ => e.with_condvar(o, CondvarModel { waiters: Seq::empty(), ..cv }),
                };
                lemma_woke_keeps(e1, cv.waiters, 0);
                lemma_woke_keeps(e1, cv.waiters, 1);
                lemma_woke_keeps(e1, cv.waiters, cv.waiters.len() as int);
                lemma_object_keeps(e, n, o, n.objects[o]);
            },
            _ => {},
        }
    }
}

proof fn lemma_fenced_keeps(e: ExecModel, order: Order)
    ensures
        e.fenced(order) matches Ok(n) ==> spurs_kept(e, n),
{
    if let Ok(n) = e.fenced(order) {
        assert forall|k: int| #[trigger] e.is_condvar(k) implies n.is_condvar(k) && (e.condvar(
            k,
        ).did_spur ==> n.condvar(k).did_spur) by {}
    }
}

proof fn lemma_grown_keeps(m: Moment, deed: Deed)
    requires
        deed is NewCell || deed is NewMutex || deed is NewCondvar || deed is Register
            || deed is Materialize,
    ensures
        did(m, deed) matches Some(n) ==> spurs_kept(m.0, n.0),
{
    reveal(did);
    let (e, c) = m;
    if let Some((n, d)) = did(m, deed) {
        assert(n.objects == e.objects || n.objects == e.objects.push(n.objects.last()));
    }
}

proof fn lemma_zeroed_keeps(e: ExecModel, c: Seq<Frozen>, base: u64, len: u64)
    requires
        e.inv(c),
        e.objects.len() <= usize::MAX,
    ensures
        spurs_kept(e, e.zeroed(base, len)),
{
    let n = e.zeroed(base, len);
    assert forall|o: int| #[trigger] e.is_condvar(o) implies n.is_condvar(o) && (e.condvar(
        o,
    ).did_spur ==> n.condvar(o).did_spur) by {
        if e.cell_within(o as usize, base, len) {
            let k = choose|k: u64|
                #![trigger e.materialized.contains_key(k)]
                e.materialized.contains_key(k) && crate::rt::table::in_range(k, base, len)
                    && e.materialized[k] == o as usize;
            assert(e.objects[e.materialized[k] as int] is Atomic);
        }
    }
}

proof fn lemma_memory_keeps(m: Moment, deed: Deed)
    requires
        deed is Unpark || deed is Spawn || deed is Publish || deed is Unpublish || deed is Steer,
    ensures
        did(m, deed) matches Some(n) ==> spurs_kept(m.0, n.0),
{
    reveal(did);
    if let Some((n, d)) = did(m, deed) {
        assert(n.objects == m.0.objects);
        lemma_same_objects(m.0, n);
    }
}

proof fn lemma_did_keeps(m: Moment, deed: Deed)
    ensures
        did(m, deed) matches Some(n) ==> spurs_kept(m.0, n.0),
{
    reveal(did);
    match deed {
        Deed::Load { .. }
        | Deed::Store { .. }
        | Deed::Rmw { .. }
        | Deed::UnsyncLoad { .. }
        | Deed::BeginMut { .. }
        | Deed::EndMut { .. } => {
            lemma_cell_did_keeps(m, deed);
        },
        Deed::Begin { .. }
        | Deed::BeginLock { .. }
        | Deed::Park { .. }
        | Deed::Yield
        | Deed::Done
        | Deed::Advance { .. } => {
            lemma_decided_keeps(m, deed);
        },
        Deed::Lock { .. }
        | Deed::Unlock { .. }
        | Deed::NotifyOne { .. }
        | Deed::NotifyAll { .. } => {
            lemma_sync_did_keeps(m, deed);
        },
        Deed::NewCell { .. }
        | Deed::NewMutex { .. }
        | Deed::NewCondvar
        | Deed::Register { .. }
        | Deed::Materialize { .. } => {
            lemma_grown_keeps(m, deed);
        },
        Deed::Fence { order } => {
            lemma_fenced_keeps(m.0, order);
        },
        Deed::Zero { base, len } => {
            if did(m, deed) is Some {
                lemma_zeroed_keeps(m.0, m.1, base, len);
            }
        },
        _ => {
            lemma_memory_keeps(m, deed);
        },
    }
}

proof fn lemma_history_keeps(h: Seq<Moment>, deeds: Seq<Deed>, i: int, j: int, object: int)
    requires
        is_history(h, deeds),
        0 <= i <= j < h.len(),
        h[i].0.is_condvar(object),
        h[i].0.condvar(object).did_spur,
    ensures
        h[j].0.is_condvar(object),
        h[j].0.condvar(object).did_spur,
    decreases j - i,
{
    if i < j {
        lemma_history_keeps(h, deeds, i, j - 1, object);
        assert(did(h[j - 1], deeds[j - 1]) == Some(h[j - 1 + 1]));
        lemma_did_keeps(h[j - 1], deeds[j - 1]);
    }
}

/// At most one wait on a condition variable wakes on its own in an execution:
/// after the first that did, no other does, and none asks the path whether it
/// should.
pub proof fn a_condvar_wakes_itself_once(
    h: Seq<Moment>,
    deeds: Seq<Deed>,
    i: int,
    j: int,
    object: usize,
)
    requires
        is_history(h, deeds),
        0 <= i < j < deeds.len(),
        wakes_itself(h[i], deeds[i], object),
    ensures
        !wakes_itself(h[j], deeds[j], object),
        h[j].0.spurred(object as int) == Ok::<(ExecModel, bool), Fault>((h[j].0, false)),
{
    reveal(did);
    assert(did(h[i], deeds[i]) == Some(h[i + 1]));
    lemma_did_keeps(h[i], deeds[i]);
    lemma_waited_keeps(h[i].0, h[i].1, deeds[i]->wait);
    lemma_history_keeps(h, deeds, i + 1, j, object as int);
}

// ----- pruning -----
/// Without sleep sets nothing is counted as pruned.
pub open spec fn prunes_nothing(e: ExecModel, n: ExecModel) -> bool {
    !e.sleep_sets ==> !n.sleep_sets && n.pruned == e.pruned
}

proof fn lemma_decision_prunes_nothing(e: ExecModel, c: Seq<Frozen>)
    ensures
        e.scheduled(c) matches Ok(s) ==> prunes_nothing(e, s.after),
{
}

proof fn lemma_waited_prunes_nothing(e: ExecModel, c: Seq<Frozen>, w: Wait)
    ensures
        e.waited(c, w) matches Ok(s) ==> prunes_nothing(e, s.after),
{
    let cv = w.condvar as int;
    match w.phase {
        Phase::Announce => {
            lemma_begun_prunes_nothing(e, c, w.condvar, Action::Opaque);
        },
        Phase::Decide => {
            if let Ok((e1, spur)) = e.spurred(cv) {
                if spur {
                    lemma_decision_prunes_nothing(e1.unlocked(w.mutex).contending(w.mutex), c);
                } else {
                    lemma_decision_prunes_nothing(
                        e1.enqueued(cv).unlocked(w.mutex).blocked(w.timed),
                        c,
                    );
                }
            }
        },
        Phase::Woken => {
            lemma_decision_prunes_nothing(e.dequeued_self(cv).0.contending(w.mutex), c);
        },
        Phase::Relock { .. } => {},
    }
}

proof fn lemma_begun_prunes_nothing(e: ExecModel, c: Seq<Frozen>, object: usize, action: Action)
    ensures
        e.begun(c, object, action) matches Ok(s) ==> prunes_nothing(e, s.after),
{
    let n = if e.is_cell(object as int) {
        e.with_cell(object as int, e.cell(object as int).prepared(action))
    } else {
        e
    };
    lemma_decision_prunes_nothing(
        n.announced(Some(crate::rt::thread::Operation { object, action })),
        c,
    );
}

proof fn lemma_woke_prunes_nothing(e: ExecModel, waiters: Seq<usize>, n: int)
    ensures
        e.woke(waiters, n).pruned == e.pruned,
        e.woke(waiters, n).sleep_sets == e.sleep_sets,
    decreases n,
{
    if n > 0 {
        lemma_woke_prunes_nothing(e, waiters, n - 1);
    }
}

proof fn lemma_begin_prunes_nothing(m: Moment, deed: Deed)
    requires
        deed is Begin,
    ensures
        did(m, deed) matches Some(n) ==> prunes_nothing(m.0, n.0),
{
    reveal(did);
    if let Deed::Begin { object, action } = deed {
        lemma_begun_prunes_nothing(m.0, m.1, object, action);
    }
}

proof fn lemma_begin_lock_prunes_nothing(m: Moment, deed: Deed)
    requires
        deed is BeginLock,
    ensures
        did(m, deed) matches Some(n) ==> prunes_nothing(m.0, n.0),
{
    reveal(did);
    if let Deed::BeginLock { object } = deed {
        lemma_decision_prunes_nothing(m.0.contending(object), m.1);
    }
}

proof fn lemma_advance_prunes_nothing(m: Moment, deed: Deed)
    requires
        deed is Advance,
    ensures
        did(m, deed) matches Some(n) ==> prunes_nothing(m.0, n.0),
{
    reveal(did);
    if let Deed::Advance { wait } = deed {
        lemma_waited_prunes_nothing(m.0, m.1, wait);
    }
}

proof fn lemma_park_prunes_nothing(m: Moment, deed: Deed)
    requires
        deed is Park,
    ensures
        did(m, deed) matches Some(n) ==> prunes_nothing(m.0, n.0),
{
    reveal(did);
    if let Deed::Park { timed } = deed {
        lemma_decision_prunes_nothing(m.0.blocked(timed), m.1);
    }
}

proof fn lemma_yield_prunes_nothing(m: Moment, deed: Deed)
    requires
        deed is Yield,
    ensures
        did(m, deed) matches Some(n) ==> prunes_nothing(m.0, n.0),
{
    reveal(did);
    lemma_decision_prunes_nothing(m.0.yielding(), m.1);
}

proof fn lemma_done_prunes_nothing(m: Moment, deed: Deed)
    requires
        deed is Done,
    ensures
        did(m, deed) matches Some(n) ==> prunes_nothing(m.0, n.0),
{
    reveal(did);
    lemma_decision_prunes_nothing(m.0.ending(), m.1);
}

#[verifier::rlimit(40)]
proof fn lemma_cell_did_prunes_nothing(m: Moment, deed: Deed)
    requires
        on_cell(deed) is Some,
    ensures
        did(m, deed) matches Some(n) ==> prunes_nothing(m.0, n.0),
{
    reveal(did);
}

proof fn lemma_sync_did_prunes_nothing(m: Moment, deed: Deed)
    requires
        deed is Lock || deed is Unlock || deed is NotifyOne || deed is NotifyAll,
    ensures
        did(m, deed) matches Some(n) ==> prunes_nothing(m.0, n.0),
{
    reveal(did);
    let (e, c) = m;
    match deed {
        Deed::NotifyOne { object } => {
            let cv = e.condvar(object as int);
            let e1 = e.with_condvar(object as int, cv.dequeued());
            lemma_woke_prunes_nothing(e1, cv.waiters, 0);
            lemma_woke_prunes_nothing(e1, cv.waiters, 1);
        },
        Deed::NotifyAll { object } => {
            let cv = e.condvar(object as int);
            let e1 = e.with_condvar(
                object as int,
                CondvarModel { waiters: Seq::empty(), ..cv },
            );
            lemma_woke_prunes_nothing(e1, cv.waiters, cv.waiters.len() as int);
        },
        _ => {},
    }
}

proof fn lemma_grown_prunes_nothing(m: Moment, deed: Deed)
    requires
        deed is NewCell || deed is NewMutex || deed is NewCondvar || deed is Register
            || deed is Materialize,
    ensures
        did(m, deed) matches Some(n) ==> prunes_nothing(m.0, n.0),
{
    reveal(did);
}

proof fn lemma_memory_prunes_nothing(m: Moment, deed: Deed)
    requires
        deed is Unpark || deed is Spawn || deed is Publish || deed is Unpublish || deed is Zero
            || deed is Steer,
    ensures
        did(m, deed) matches Some(n) ==> prunes_nothing(m.0, n.0),
{
    reveal(did);
}

proof fn lemma_fenced_prunes_nothing(e: ExecModel, order: Order)
    ensures
        e.fenced(order) matches Ok(n) ==> prunes_nothing(e, n),
{
}

proof fn lemma_did_prunes_nothing(m: Moment, deed: Deed)
    ensures
        did(m, deed) matches Some(n) ==> prunes_nothing(m.0, n.0),
{
    reveal(did);
    match deed {
        Deed::Load { .. }
        | Deed::Store { .. }
        | Deed::Rmw { .. }
        | Deed::UnsyncLoad { .. }
        | Deed::BeginMut { .. }
        | Deed::EndMut { .. } => {
            lemma_cell_did_prunes_nothing(m, deed);
        },
        Deed::Begin { .. } => {
            lemma_begin_prunes_nothing(m, deed);
        },
        Deed::BeginLock { .. } => {
            lemma_begin_lock_prunes_nothing(m, deed);
        },
        Deed::Park { .. } => {
            lemma_park_prunes_nothing(m, deed);
        },
        Deed::Yield => {
            lemma_yield_prunes_nothing(m, deed);
        },
        Deed::Done => {
            lemma_done_prunes_nothing(m, deed);
        },
        Deed::Advance { .. } => {
            lemma_advance_prunes_nothing(m, deed);
        },
        Deed::Lock { .. }
        | Deed::Unlock { .. }
        | Deed::NotifyOne { .. }
        | Deed::NotifyAll { .. } => {
            lemma_sync_did_prunes_nothing(m, deed);
        },
        Deed::NewCell { .. }
        | Deed::NewMutex { .. }
        | Deed::NewCondvar
        | Deed::Register { .. }
        | Deed::Materialize { .. } => {
            lemma_grown_prunes_nothing(m, deed);
        },
        Deed::Fence { order } => {
            lemma_fenced_prunes_nothing(m.0, order);
        },
        _ => {
            lemma_memory_prunes_nothing(m, deed);
        },
    }
}

/// An execution without sleep sets prunes nothing, whatever it does.
pub proof fn nothing_is_pruned_without_sleep_sets(h: Seq<Moment>, deeds: Seq<Deed>, i: int)
    requires
        is_history(h, deeds),
        0 <= i < h.len(),
        !h[0].0.sleep_sets,
    ensures
        h[i].0.pruned == h[0].0.pruned,
        !h[i].0.sleep_sets,
    decreases i,
{
    if i > 0 {
        nothing_is_pruned_without_sleep_sets(h, deeds, i - 1);
        assert(did(h[i - 1], deeds[i - 1]) == Some(h[i - 1 + 1]));
        lemma_did_prunes_nothing(h[i - 1], deeds[i - 1]);
    }
}

} // verus!
