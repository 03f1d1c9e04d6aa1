//! Accesses to a cell that race.
use vstd::prelude::*;

use crate::rt::atomic::laws::overwriting_gives_the_value_back;
use crate::rt::atomic::state::StateModel;
use crate::rt::claims::Frozen;
use crate::rt::condvar::CondvarModel;
use crate::rt::execution::ExecModel;
use crate::rt::fault::Fault;
use crate::rt::history::{did, is_history, Deed, Moment};
use crate::rt::object::ObjectModel;
use crate::rt::order::Order;
use crate::rt::path::PathModel;
use crate::rt::thread::{Action, Operation, ThreadsModel};
use crate::rt::vv::{VersionVec, LANES};
use crate::rt::wait::{Phase, Wait};

verus! {

/// The ways to access a cell.
pub enum Way {
    Load,
    Store,
    UnsyncLoad,
    UnsyncMut,
}

/// Two accesses of a cell race where they are not ordered: a mutable access
/// with any other, and an unsynchronized load with a store.
pub open spec fn racy(a: Way, b: Way) -> bool {
    ||| a is UnsyncMut
    ||| b is UnsyncMut
    ||| a is UnsyncLoad && b is Store
    ||| a is Store && b is UnsyncLoad
}

/// The cell after an access by the active thread.
pub open spec fn visited(s: StateModel, way: Way, t: ThreadsModel) -> Result<StateModel, Fault> {
    match way {
        Way::Load => s.tracked_load(t),
        Way::Store => s.tracked_store(t),
        Way::UnsyncLoad => s.tracked_unsync_load(t),
        Way::UnsyncMut => s.tracked_unsync_mut(t),
    }
}

proof fn lemma_ahead(a: VersionVec, b: VersionVec, i: int)
    requires
        0 <= i <= LANES,
    ensures
        match a.first_ahead(b, i) {
            Some(k) => i <= k < LANES && a.at(k as int) < b.at(k as int),
            None => forall|k: int| i <= k < LANES ==> #[trigger] b.at(k) <= a.at(k),
        },
    decreases LANES - i,
{
    if i < LANES {
        lemma_ahead(a, b, i + 1);
    }
}

pub proof fn lemma_clear(a: VersionVec, b: VersionVec)
    ensures
        a.first_ahead(b, 0) is None <==> b.below(a),
        a.first_ahead(b, 0) matches Some(k) ==> k < LANES && a.at(k as int) < b.at(k as int),
{
    lemma_ahead(a, b, 0);
}

pub proof fn lemma_below_join(a: VersionVec, b: VersionVec, c: VersionVec)
    ensures
        a.joined(b).below(c) <==> a.below(c) && b.below(c),
        a.below(a.joined(b)),
        b.below(a.joined(b)),
{
    VersionVec::join_is_least_upper_bound(a, b, c);
    VersionVec::below_is_partial_order(a, a.joined(b), c);
    VersionVec::below_is_partial_order(b, a.joined(b), c);
}

/// Exactly the races are found: after an access by a thread that has seen
/// `first`, an access by one that has seen `second` is refused because of it
/// where, and only where, the two race and `first` is not below `second`. The
/// refusal names a thread of which the second has not seen enough.
pub proof fn exactly_the_races_are_found(
    s: StateModel,
    a: Way,
    first: ThreadsModel,
    b: Way,
    second: ThreadsModel,
)
    requires
        visited(s, a, first) is Ok,
    ensures
        ({
            let s1 = visited(s, a, first)->Ok_0;
            let ordered = first.current().causality.below(second.current().causality);
            &&& visited(s1, b, second) is Ok <==> visited(s, b, second) is Ok && (!racy(a, b)
                || ordered)
            &&& visited(s1, b, second) matches Err(f) ==> (f matches Fault::Causality {
                thread,
                ..
            } && thread < LANES)
            &&& s1.is_mutating == s.is_mutating && !s.is_mutating
            &&& s1.regions == s.regions
        }),
{
    let s1 = visited(s, a, first)->Ok_0;
    let v = first.current().causality;
    let w = second.current().causality;
    lemma_clear(w, s.loaded_at);
    lemma_clear(w, s.unsync_loaded_at);
    lemma_clear(w, s.stored_at);
    lemma_clear(w, s.unsync_mut_at);
    lemma_clear(w, s1.loaded_at);
    lemma_clear(w, s1.unsync_loaded_at);
    lemma_clear(w, s1.stored_at);
    lemma_clear(w, s1.unsync_mut_at);
    lemma_below_join(s.loaded_at, v, w);
    lemma_below_join(s.unsync_loaded_at, v, w);
    lemma_below_join(s.stored_at, v, w);
    lemma_below_join(s.unsync_mut_at, v, w);
}

/// While a mutable access lasts, nothing else may access the cell.
pub proof fn a_mutable_access_is_exclusive(
    e: ExecModel,
    object: int,
    way: Way,
    other: ThreadsModel,
)
    requires
        e.is_cell(object),
        e.cell(object).wf(),
    ensures
        e.mut_begun(object) matches Ok((n, v)) ==> {
            &&& v == e.cell(object).value()
            &&& visited(n.cell(object), way, other) == Err::<StateModel, Fault>(Fault::Mutating)
        },
        e.unsync_loaded(object) matches Ok((n, v)) ==> v == e.cell(object).value() && n.cell(
            object,
        ).value() == v,
{
}

/// A mutable access leaves its value behind, and the cell open to others again.
pub proof fn a_mutable_access_leaves_its_value(
    e: ExecModel,
    object: int,
    value: u128,
    unwinding: bool,
)
    requires
        e.is_cell(object),
        e.cell(object).wf(),
    ensures
        e.mut_ended(object, value, unwinding) matches Ok(n) ==> {
            &&& n.is_cell(object)
            &&& n.cell(object).value() == value
            &&& !n.cell(object).is_mutating
        },
{
    overwriting_gives_the_value_back(StateModel { is_mutating: false, ..e.cell(object) }, value);
}

// ----- whole executions -----
/// The access was allowed to a thread that has seen `view`: no access that it
/// races with is outside the view.
pub open spec fn allowed(s: StateModel, way: Way, view: VersionVec) -> bool {
    &&& s.unsync_mut_at.below(view)
    &&& way is Store || way is UnsyncMut ==> s.unsync_loaded_at.below(view)
    &&& way is UnsyncLoad || way is UnsyncMut ==> s.stored_at.below(view)
    &&& way is UnsyncMut ==> s.loaded_at.below(view)
}

/// The cell remembers an access by a thread that had seen `view`.
pub open spec fn noted(s: StateModel, way: Way, view: VersionVec) -> bool {
    match way {
        Way::Load => view.below(s.loaded_at),
        Way::Store => view.below(s.stored_at),
        Way::UnsyncLoad => view.below(s.unsync_loaded_at),
        Way::UnsyncMut => view.below(s.unsync_mut_at),
    }
}

/// The cell remembers in `b` all accesses that it does in `a`.
pub open spec fn remembers_all(a: StateModel, b: StateModel) -> bool {
    &&& a.loaded_at.below(b.loaded_at)
    &&& a.stored_at.below(b.stored_at)
    &&& a.unsync_loaded_at.below(b.unsync_loaded_at)
    &&& a.unsync_mut_at.below(b.unsync_mut_at)
}

/// The clocks of the cells are the same.
spec fn same_clocks(a: StateModel, b: StateModel) -> bool {
    &&& b.loaded_at == a.loaded_at
    &&& b.stored_at == a.stored_at
    &&& b.unsync_loaded_at == a.unsync_loaded_at
    &&& b.unsync_mut_at == a.unsync_mut_at
}

proof fn lemma_remembers_trans(a: StateModel, b: StateModel, c: StateModel)
    requires
        remembers_all(a, b),
        remembers_all(b, c),
    ensures
        remembers_all(a, c),
{
    VersionVec::below_is_partial_order(a.loaded_at, b.loaded_at, c.loaded_at);
    VersionVec::below_is_partial_order(a.stored_at, b.stored_at, c.stored_at);
    VersionVec::below_is_partial_order(
        a.unsync_loaded_at,
        b.unsync_loaded_at,
        c.unsync_loaded_at,
    );
    VersionVec::below_is_partial_order(a.unsync_mut_at, b.unsync_mut_at, c.unsync_mut_at);
}

proof fn lemma_tracked(s: StateModel, way: Way, t: ThreadsModel)
    ensures
        visited(s, way, t) matches Ok(n) ==> {
            &&& allowed(s, way, t.current().causality)
            &&& noted(n, way, t.current().causality)
            &&& remembers_all(s, n)
        },
{
    let v = t.current().causality;
    lemma_clear(v, s.loaded_at);
    lemma_clear(v, s.unsync_loaded_at);
    lemma_clear(v, s.stored_at);
    lemma_clear(v, s.unsync_mut_at);
    lemma_below_join(s.loaded_at, v, v);
    lemma_below_join(s.unsync_loaded_at, v, v);
    lemma_below_join(s.stored_at, v, v);
    lemma_below_join(s.unsync_mut_at, v, v);
}

proof fn lemma_composed_clocks(
    s: StateModel,
    path: PathModel,
    t: ThreadsModel,
    covered: Seq<usize>,
    k: int,
    order: Order,
    floor: bool,
    resolved: Seq<(u64, bool)>,
    value: u128,
)
    ensures
        s.composed(path, t, covered, k, order, floor, resolved, value) matches Ok(c)
            ==> same_clocks(s, c.cell),
    decreases covered.len() - k,
{
    if k < covered.len() {
        let pushed = if path.traversed() {
            match s.offered(t, covered, k, order, floor, resolved) {
                Ok(seed) => path.with_load(seed),
                Err(f) => Err(f),
            }
        } else {
            Ok(path)
        };
        if let Ok(p1) = pushed {
            if let Ok((p2, index)) = p1.load_branch() {
                let ri = covered[k] as int;
                let r = s.regions[ri];
                let fixed = if covered.len() > 1 {
                    r.resolve(index, resolved)
                } else {
                    Some(resolved)
                };
                if index < r.stores.len() && fixed is Some {
                    lemma_composed_clocks(
                        s.with_region(ri, r.read(t, index)),
                        p2,
                        t.synced(r.stores[index].sync.happens_before, order),
                        covered,
                        k + 1,
                        order,
                        floor,
                        fixed->Some_0,
                        value | (r.stores[index].value & r.mask),
                    );
                }
            }
        }
    }
}

proof fn lemma_rmw_read_clocks(
    s: StateModel,
    path: PathModel,
    t: ThreadsModel,
    covered: Seq<usize>,
    k: int,
    reads: Seq<(usize, usize)>,
    value: u128,
)
    ensures
        s.rmw_read(path, t, covered, k, reads, value) matches Ok(half) ==> same_clocks(
            s,
            half.cell,
        ),
    decreases covered.len() - k,
{
    if k < covered.len() {
        let ri = covered[k];
        let r = s.regions[ri as int];
        let pushed = if path.traversed() {
            path.with_load(r.maximal(r.stores.len() as int))
        } else {
            Ok(path)
        };
        if let Ok(p1) = pushed {
            if let Ok((p2, index)) = p1.load_branch() {
                if index < r.stores.len() {
                    lemma_rmw_read_clocks(
                        s.with_region(ri as int, r.read(t, index)),
                        p2,
                        t,
                        covered,
                        k + 1,
                        reads.push((ri, index as usize)),
                        value | (r.stores[index].value & r.mask),
                    );
                }
            }
        }
    }
}

proof fn lemma_rmw_write_clocks(
    s: StateModel,
    t: ThreadsModel,
    reads: Seq<(usize, usize)>,
    j: int,
    current: u128,
    next: u128,
    write_mask: u128,
    success: Order,
    sc_rank: Option<u32>,
    op_id: u64,
)
    ensures
        s.rmw_write(t, reads, j, current, next, write_mask, success, sc_rank, op_id) matches Ok(w)
            ==> same_clocks(s, w.cell),
    decreases reads.len() - j,
{
    if s.rmw_write(
        t,
        reads,
        j,
        current,
        next,
        write_mask,
        success,
        sc_rank,
        op_id,
    ) is Ok {
        if j < reads.len() {
            let ri = reads[j].0 as int;
            let index = reads[j].1 as int;
            let r = s.regions[ri];
            let t1 = t.synced(r.stores[index].sync.happens_before, success);
            let n = if r.mask & write_mask != 0 {
                s.with_region(ri, r.rmw_committed(t1, index, next, success, sc_rank, op_id))
            } else {
                s.with_region(ri, r.preserving(t1, index, op_id, write_mask)).prior_reads_checked(
                    ri,
                    write_mask,
                    t.me(),
                )->Ok_0
            };
            lemma_rmw_write_clocks(
                n,
                t1,
                reads,
                j + 1,
                current,
                next,
                write_mask,
                success,
                sc_rank,
                op_id,
            );
        }
    }
}

/// The operation accesses the cell in that way.
pub open spec fn accesses(deed: Deed, cell: usize, way: Way) -> bool {
    match deed {
        Deed::Load { object, .. } => object == cell && way is Load,
        Deed::Store { object, .. } => object == cell && way is Store,
        Deed::Rmw { object, next, .. } => object == cell && (way is Load || (way is Store
            && next is Some)),
        Deed::UnsyncLoad { object } => object == cell && way is UnsyncLoad,
        Deed::BeginMut { object } => object == cell && way is UnsyncMut,
        Deed::EndMut { object, unwinding, .. } => object == cell && way is UnsyncMut && !unwinding,
        _ => false,
    }
}

/// What the active thread has seen when it makes the access: an atomic
/// operation is an event of its own, which counts.
pub open spec fn view_of(e: ExecModel, deed: Deed) -> VersionVec {
    if deed is Load || deed is Store || deed is Rmw {
        e.threads.ticked().current().causality
    } else {
        e.threads.current().causality
    }
}

proof fn lemma_rmw_clocks(
    e: ExecModel,
    object: int,
    read: u128,
    write: u128,
    success: Order,
    failure: Order,
    next: u128,
)
    requires
        e.is_cell(object),
    ensures
        e.rmw_begun(object, read, write, success, failure) matches Ok(half) ==> {
            let v = e.threads.ticked().current().causality;
            let undone = e.rmw_undone(object, half, failure);
            &&& allowed(e.cell(object), Way::Load, v)
            &&& noted(undone.cell(object), Way::Load, v)
            &&& remembers_all(e.cell(object), undone.cell(object))
            &&& e.rmw_done(object, half, next, write, success) matches Ok(n) ==> {
                &&& allowed(e.cell(object), Way::Store, v)
                &&& noted(n.cell(object), Way::Load, v)
                &&& noted(n.cell(object), Way::Store, v)
                &&& remembers_all(e.cell(object), n.cell(object))
            }
        },
{
    if let Ok(half) = e.rmw_begun(object, read, write, success, failure) {
        let t = e.threads.ticked();
        let cell = e.cell(object).partitioned(read).partitioned(write);
        assert(same_clocks(e.cell(object), cell));
        lemma_tracked(cell, Way::Load, t);
        let s1 = cell.tracked_load(t)->Ok_0;
        let s2 = s1.scope_checked(read, success.joins() || failure.joins(), t.me())->Ok_0;
        lemma_rmw_read_clocks(s2, e.path, t, s2.covered(read), 0, Seq::empty(), 0);
        assert(same_clocks(s1, half.cell));
        if let Ok(n) = e.rmw_done(object, half, next, write, success) {
            lemma_tracked(half.cell, Way::Store, t);
            let s = half.cell.tracked_store(t)->Ok_0.next_op();
            let sc = success == Order::SeqCst;
            let t1 = if sc {
                t.sc_advanced()
            } else {
                t
            };
            lemma_rmw_write_clocks(
                s,
                t1,
                half.reads,
                0,
                half.value,
                next,
                write,
                success,
                if sc {
                    Some(t.sc_clock)
                } else {
                    None
                },
                s.op_clock,
            );
            assert(same_clocks(s, n.cell(object)));
            lemma_remembers_trans(cell, half.cell, n.cell(object));
        }
    }
}

/// An access that is let through was allowed, and is noted.
proof fn lemma_access(m: Moment, deed: Deed, cell: usize, way: Way)
    requires
        did(m, deed) is Some,
        accesses(deed, cell, way),
    ensures
        m.0.is_cell(cell as int),
        allowed(m.0.cell(cell as int), way, view_of(m.0, deed)),
        noted(did(m, deed)->Some_0.0.cell(cell as int), way, view_of(m.0, deed)),
        remembers_all(m.0.cell(cell as int), did(m, deed)->Some_0.0.cell(cell as int)),
{
    reveal(did);
    let (e, c) = m;
    let o = cell as int;
    let t = e.threads.ticked();
    match deed {
        Deed::Load { object, mask, order, coherent } => {
            let p = e.cell(o).partitioned(mask);
            lemma_tracked(p, Way::Load, t);
            let s1 = p.tracked_load(t)->Ok_0;
            let s2 = s1.scope_checked(mask, order.joins(), t.me())->Ok_0;
            lemma_composed_clocks(
                s2,
                e.path,
                t,
                s2.covered(mask),
                0,
                order,
                coherent,
                Seq::empty(),
                0,
            );
        },
        Deed::Store { object, mask, value, order } => {
            lemma_tracked(e.cell(o).partitioned(mask), Way::Store, t);
        },
        Deed::Rmw { object, read, write, success, failure, next } => {
            let value = match next {
                Some(v) => v,
                None => 0,
            };
            lemma_rmw_clocks(e, o, read, write, success, failure, value);
        },
        Deed::UnsyncLoad { object } => {
            lemma_tracked(e.cell(o), Way::UnsyncLoad, e.threads);
        },
        Deed::BeginMut { object } => {
            lemma_tracked(e.cell(o), Way::UnsyncMut, e.threads);
        },
        Deed::EndMut { object, value, unwinding } => {
            let s = StateModel { is_mutating: false, ..e.cell(o) }.overwritten(value);
            lemma_tracked(s, Way::UnsyncMut, e.threads);
        },
        _ => {},
    }
}

/// Every cell remembers in `n` all accesses that it does in `e`.
spec fn cells_remember(e: ExecModel, n: ExecModel) -> bool {
    forall|o: int| #[trigger]
        e.is_cell(o) ==> n.is_cell(o) && remembers_all(e.cell(o), n.cell(o))
}

proof fn lemma_cells_trans(a: ExecModel, b: ExecModel, c: ExecModel)
    requires
        cells_remember(a, b),
        cells_remember(b, c),
    ensures
        cells_remember(a, c),
{
    assert forall|o: int| #[trigger] a.is_cell(o) implies c.is_cell(o) && remembers_all(
        a.cell(o),
        c.cell(o),
    ) by {
        assert(b.is_cell(o));
        lemma_remembers_trans(a.cell(o), b.cell(o), c.cell(o));
    }
}

/// Only an object that is no cell differs, or a cell with the same clocks.
proof fn lemma_other_object(e: ExecModel, n: ExecModel, object: int, o: ObjectModel)
    requires
        n.objects == e.objects || (0 <= object < e.objects.len() && n.objects
            == e.objects.update(object, o)),
        e.is_cell(object) ==> (o matches ObjectModel::Atomic(s) && remembers_all(
            e.cell(object),
            s,
        )),
    ensures
        cells_remember(e, n),
{
    assert forall|k: int| #[trigger] e.is_cell(k) implies n.is_cell(k) && remembers_all(
        e.cell(k),
        n.cell(k),
    ) by {
        VersionVec::below_is_partial_order(
            e.cell(k).loaded_at,
            e.cell(k).loaded_at,
            e.cell(k).loaded_at,
        );
    }
}

proof fn lemma_scheduled_cells(e: ExecModel, c: Seq<Frozen>)
    requires
        forall|i: int|
            0 <= i < e.threads.threads.len() ==> ((#[trigger] e.threads.threads[i]).operation matches Some(
            op,
        ) ==> op.object < e.objects.len()),
    ensures
        e.scheduled(c) matches Ok(s) ==> cells_remember(e, s.after),
{
    let (p1, c1) = e.raced_from(e.path, c, 0);
    let t = e.threads.rescued();
    if let Ok(s) = e.scheduled(c) {
        if let Ok((p2, chosen, covered)) = p1.thread_branch(c1, t.seed()) {
            if let Some(next) = chosen {
                assert(t.threads[next].operation == e.threads.threads[next].operation);
                if let Some(op) = t.threads[next].operation {
                    let o = op.object as int;
                    lemma_other_object(e, s.after, o, s.after.objects[o]);
                } else {
                    lemma_other_object(e, s.after, 0, e.objects[0]);
                }
            } else {
                lemma_other_object(e, s.after, 0, e.objects[0]);
            }
        }
    }
}

proof fn lemma_decision_cells(e: ExecModel, n: ExecModel, c: Seq<Frozen>)
    requires
        e.running(c),
        cells_remember(e, n),
        n.objects.len() == e.objects.len(),
        n.threads.threads.len() == e.threads.threads.len(),
        forall|i: int|
            0 <= i < n.threads.threads.len() && (#[trigger] n.threads.threads[i]).operation
                != e.threads.threads[i].operation ==> (n.threads.threads[i].operation matches Some(
            op,
        ) ==> op.object < e.objects.len()),
    ensures
        n.scheduled(c) matches Ok(s) ==> cells_remember(e, s.after),
{
    assert forall|i: int| 0 <= i < n.threads.threads.len() implies ((
    #[trigger] n.threads.threads[i]).operation matches Some(op) ==> op.object
        < n.objects.len()) by {
        assert(e.threads.threads[i].operation matches Some(op) ==> op.object < e.objects.len());
    }
    lemma_scheduled_cells(n, c);
    if let Ok(s) = n.scheduled(c) {
        lemma_cells_trans(e, n, s.after);
    }
}

proof fn lemma_begun_cells(e: ExecModel, c: Seq<Frozen>, object: usize, action: Action)
    requires
        e.running(c),
        object < e.objects.len(),
    ensures
        e.begun(c, object, action) matches Ok(s) ==> cells_remember(e, s.after),
{
    let p = if e.is_cell(object as int) {
        e.with_cell(object as int, e.cell(object as int).prepared(action))
    } else {
        e
    };
    let n = p.announced(Some(Operation { object, action }));
    lemma_other_object(e, n, object as int, n.objects[object as int]);
    lemma_decision_cells(e, n, c);
}

proof fn lemma_waited_cells(e: ExecModel, c: Seq<Frozen>, w: Wait)
    requires
        e.running(c),
        e.is_condvar(w.condvar as int),
        e.is_mutex(w.mutex as int),
    ensures
        e.waited(c, w) matches Ok(s) ==> cells_remember(e, s.after),
{
    let cv = w.condvar as int;
    let m = w.mutex as int;
    match w.phase {
        Phase::Announce => {
            lemma_begun_cells(e, c, w.condvar, Action::Opaque);
        },
        Phase::Decide => {
            if let Ok((e1, spur)) = e.spurred(cv) {
                lemma_other_object(e, e1, cv, e1.objects[cv]);
                let e2 = if spur {
                    e1
                } else {
                    e1.enqueued(cv)
                };
                lemma_other_object(e1, e2, cv, e2.objects[cv]);
                lemma_cells_trans(e, e1, e2);
                let e3 = e2.unlocked(w.mutex);
                lemma_other_object(e2, e3, m, e3.objects[m]);
                lemma_cells_trans(e, e2, e3);
                if spur {
                    lemma_decision_cells(e, e3.contending(w.mutex), c);
                } else {
                    lemma_decision_cells(e, e3.blocked(w.timed), c);
                }
            }
        },
        Phase::Woken => {
            let e1 = e.dequeued_self(cv).0;
            lemma_other_object(e, e1, cv, e1.objects[cv]);
            lemma_decision_cells(e, e1.contending(w.mutex), c);
        },
        Phase::Relock { .. } => {
            if let Ok(n) = e.locked(w.mutex) {
                lemma_other_object(e, n, m, n.objects[m]);
            }
        },
    }
}

proof fn lemma_woke_objects(e: ExecModel, waiters: Seq<usize>, n: int)
    ensures
        e.woke(waiters, n).objects == e.objects,
    decreases n,
{
    if n > 0 {
        lemma_woke_objects(e, waiters, n - 1);
    }
}

proof fn lemma_sync_cells(m: Moment, deed: Deed)
    requires
        deed is Lock || deed is Unlock || deed is NotifyOne || deed is NotifyAll
            || deed is Unpark || deed is BeginLock || deed is Park || deed is Yield
            || deed is Done,
    ensures
        did(m, deed) matches Some(n) ==> cells_remember(m.0, n.0),
{
    reveal(did);
    let (e, c) = m;
    if let Some((n, d)) = did(m, deed) {
        match deed {
            Deed::Lock { object } | Deed::Unlock { object } => {
                lemma_other_object(e, n, object as int, n.objects[object as int]);
            },
            Deed::NotifyOne { object } | Deed::NotifyAll { object } => {
                let o = object as int;
                let cv = e.condvar(o);
                let one = e.with_condvar(o, cv.dequeued());
                let all = e.with_condvar(
                    o,
                    CondvarModel { waiters: Seq::empty(), ..cv },
                );
                lemma_woke_objects(one, cv.waiters, 0);
                lemma_woke_objects(one, cv.waiters, 1);
                lemma_woke_objects(all, cv.waiters, cv.waiters.len() as int);
                lemma_other_object(e, n, o, n.objects[o]);
            },
            Deed::Unpark { .. } => {
                lemma_other_object(e, n, 0, e.objects[0]);
            },
            _ => {
                let k = match deed {
                    Deed::BeginLock { object } => e.contending(object),
                    Deed::Park { timed } => if e.has_unpark() {
                        e.unpark_consumed()
                    } else {
                        e.blocked(timed)
                    },
                    Deed::Yield => e.yielding(),
                    _ => e.ending(),
                };
                lemma_other_object(e, k, 0, e.objects[0]);
                lemma_decision_cells(e, k, c);
            },
        }
    }
}

/// The cells that the operation zeroes, if it does, are all its thread's to
/// zero.
pub open spec fn zeroes_its_own(m: Moment, deed: Deed) -> bool {
    deed matches Deed::Zero { base, len } ==> forall|o: int| #[trigger]
        m.0.is_cell(o) && m.0.cell_within(o as usize, base, len) ==> m.0.zeroed_cell(o) is Ok
}

proof fn lemma_plain_cells(m: Moment, deed: Deed)
    requires
        deed is NewCell || deed is NewMutex || deed is NewCondvar || deed is Register
            || deed is Materialize || deed is Unpublish || deed is Steer || deed is Publish
            || deed is Spawn || deed is Fence || deed is Zero,
        zeroes_its_own(m, deed),
    ensures
        did(m, deed) matches Some(n) ==> cells_remember(m.0, n.0),
{
    reveal(did);
    let e = m.0;
    if let Some((n, d)) = did(m, deed) {
        assert forall|o: int| #[trigger] e.is_cell(o) implies n.is_cell(o) && remembers_all(
            e.cell(o),
            n.cell(o),
        ) by {
            if let Deed::Zero { base, len } = deed {
                if e.cell_within(o as usize, base, len) {
                    assert(e.zeroed_cell(o) is Ok);
                    lemma_tracked(e.cell(o), Way::UnsyncMut, e.threads);
                }
            }
        }
    }
}

proof fn lemma_did_cells(m: Moment, deed: Deed)
    requires
        zeroes_its_own(m, deed),
    ensures
        did(m, deed) matches Some(n) ==> cells_remember(m.0, n.0),
{
    reveal(did);
    let e = m.0;
    if let Some((n, d)) = did(m, deed) {
        match deed {
            Deed::Begin { object, action } => {
                lemma_begun_cells(m.0, m.1, object, action);
            },
            Deed::Advance { wait } => {
                lemma_waited_cells(m.0, m.1, wait);
            },
            Deed::Load { object, .. } | Deed::Rmw { object, .. } => {
                lemma_access(m, deed, object, Way::Load);
                lemma_other_object(e, n, object as int, n.objects[object as int]);
            },
            Deed::Store { object, .. } => {
                lemma_access(m, deed, object, Way::Store);
                lemma_other_object(e, n, object as int, n.objects[object as int]);
            },
            Deed::UnsyncLoad { object } => {
                lemma_access(m, deed, object, Way::UnsyncLoad);
                lemma_other_object(e, n, object as int, n.objects[object as int]);
            },
            Deed::BeginMut { object } => {
                lemma_access(m, deed, object, Way::UnsyncMut);
                lemma_other_object(e, n, object as int, n.objects[object as int]);
            },
            Deed::EndMut { object, value, unwinding } => {
                if !unwinding {
                    lemma_access(m, deed, object, Way::UnsyncMut);
                }
                lemma_other_object(e, n, object as int, n.objects[object as int]);
            },
            Deed::BeginLock { .. }
            | Deed::Park { .. }
            | Deed::Yield
            | Deed::Done
            | Deed::Lock { .. }
            | Deed::Unlock { .. }
            | Deed::NotifyOne { .. }
            | Deed::NotifyAll { .. }
            | Deed::Unpark { .. } => {
                lemma_sync_cells(m, deed);
            },
            _ => {
                lemma_plain_cells(m, deed);
            },
        }
    }
}

proof fn lemma_history_cells(h: Seq<Moment>, deeds: Seq<Deed>, i: int, j: int, o: int)
    requires
        is_history(h, deeds),
        0 <= i <= j < h.len(),
        h[i].0.is_cell(o),
        forall|k: int| i <= k < j ==> zeroes_its_own(h[k], #[trigger] deeds[k]),
    ensures
        h[j].0.is_cell(o),
        remembers_all(h[i].0.cell(o), h[j].0.cell(o)),
    decreases j - i,
{
    if i < j {
        lemma_history_cells(h, deeds, i, j - 1, o);
        assert(zeroes_its_own(h[j - 1], deeds[j - 1]));
        assert(did(h[j - 1], deeds[j - 1]) == Some(h[j - 1 + 1]));
        lemma_did_cells(h[j - 1], deeds[j - 1]);
        lemma_remembers_trans(h[i].0.cell(o), h[j - 1].0.cell(o), h[j].0.cell(o));
    }
}

/// No race goes unreported: of two accesses of a cell in one execution that
/// race with each other, at whatever distance, and that were both let through,
/// the thread of the later one had seen the earlier one.
pub proof fn no_race_is_let_through(
    h: Seq<Moment>,
    deeds: Seq<Deed>,
    i: int,
    j: int,
    cell: usize,
    a: Way,
    b: Way,
)
    requires
        is_history(h, deeds),
        0 <= i < j < deeds.len(),
        accesses(deeds[i], cell, a),
        accesses(deeds[j], cell, b),
        racy(a, b),
        forall|k: int| i < k < j ==> zeroes_its_own(h[k], #[trigger] deeds[k]),
    ensures
        view_of(h[i].0, deeds[i]).below(view_of(h[j].0, deeds[j])),
{
    let o = cell as int;
    assert(did(h[i], deeds[i]) == Some(h[i + 1]));
    assert(did(h[j], deeds[j]) == Some(h[j + 1]));
    lemma_access(h[i], deeds[i], cell, a);
    lemma_access(h[j], deeds[j], cell, b);
    lemma_did_cells(h[i], deeds[i]);
    assert(h[i].0.is_cell(o));
    lemma_history_cells(h, deeds, i + 1, j, o);
    let v = view_of(h[i].0, deeds[i]);
    let w = view_of(h[j].0, deeds[j]);
    let (x, y) = (h[i + 1].0.cell(o), h[j].0.cell(o));
    VersionVec::below_is_partial_order(v, x.loaded_at, y.loaded_at);
    VersionVec::below_is_partial_order(v, x.stored_at, y.stored_at);
    VersionVec::below_is_partial_order(v, x.unsync_loaded_at, y.unsync_loaded_at);
    VersionVec::below_is_partial_order(v, x.unsync_mut_at, y.unsync_mut_at);
    VersionVec::below_is_partial_order(v, y.loaded_at, w);
    VersionVec::below_is_partial_order(v, y.stored_at, w);
    VersionVec::below_is_partial_order(v, y.unsync_loaded_at, w);
    VersionVec::below_is_partial_order(v, y.unsync_mut_at, w);
}

} // verus!
