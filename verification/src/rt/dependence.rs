//! The past accesses that an operation is checked against.
use vstd::prelude::*;

use crate::rt::access::{Access, Accesses};
use crate::rt::atomic::region::RegionModel;
use crate::rt::atomic::state::{
    cut_upto, lemma_owned_prefix, listed, owned, partition, partition_refines, straddles, StateModel,
};
use crate::rt::bits;
use crate::rt::claims::Frozen;
use crate::rt::execution::{joined_with, ExecModel};
use crate::rt::laws::lemma_raced_from;
use crate::rt::object::ObjectModel;
use crate::rt::thread::{Action, ThreadsModel};
use crate::rt::values::cut_along;
use crate::rt::vv::VersionVec;
use crate::rt::MAX_THREADS;

verus! {

proof fn lemma_masks(o: u128, r: u128, m: u128, aw: u128, ar: u128, bw: u128, br: u128)
    by (bit_vector)
    ensures
        (o | r) & m != 0 ==> o & m != 0 || r & m != 0,
        0u128 & m == 0,
        0xffff_ffff_ffff_ffff_ffff_ffff_ffff_ffffu128 & m == m,
        r & (aw & br) != 0 ==> r & aw != 0 && r & br != 0,
        r & aw != 0 ==> r & (ar | aw) != 0,
        r & ar != 0 ==> r & (ar | aw) != 0,
        (r & m) & aw != 0 ==> r & aw != 0,
        (r & !m) & aw != 0 ==> r & aw != 0,
        r & (ar | aw) != 0 ==> r & ar != 0 || r & aw != 0,
        r & aw != 0 && r & !aw == 0 && r & br != 0 ==> aw & br != 0,
        r & bw != 0 && r & !bw == 0 && r & ar != 0 ==> ar & bw != 0,
{
}

/// Some region owns a bit of `m`.
proof fn lemma_some_region(regions: Seq<RegionModel>, m: u128, n: int) -> (i: int)
    requires
        0 <= n <= regions.len(),
        owned(regions, n) & m != 0,
    ensures
        0 <= i < n,
        regions[i].mask & m != 0,
    decreases n,
{
    lemma_masks(0, 0, m, 0, 0, 0, 0);
    if n <= 0 {
        0
    } else {
        lemma_masks(owned(regions, n - 1), regions[n - 1].mask, m, 0, 0, 0, 0);
        if regions[n - 1].mask & m != 0 {
            n - 1
        } else {
            lemma_some_region(regions, m, n - 1)
        }
    }
}

proof fn lemma_listed(table: Accesses, n: int, t: int, access: Access)
    requires
        0 <= t < n <= MAX_THREADS,
        table@[t] == Some(access),
    ensures
        listed(table, n).contains(access),
    decreases n,
{
    let before = listed(table, n - 1);
    if t == n - 1 {
        assert(listed(table, n)[before.len() as int] == access);
    } else {
        lemma_listed(table, n - 1, t, access);
        let k = choose|k: int| 0 <= k < before.len() && before[k] == access;
        assert(listed(table, n)[k] == access);
    }
}

proof fn lemma_dependent_upto(s: StateModel, b: Action, n: int, i: int, access: Access)
    requires
        0 <= i < n <= s.regions.len(),
        s.regions[i].mask & b.touches() != 0,
        listed(
            s.regions[i].dependent(s.regions[i].mask & b.writes() == 0),
            MAX_THREADS as int,
        ).contains(access),
    ensures
        s.dependent_upto(b, n).contains(access),
    decreases n,
{
    let before = s.dependent_upto(b, n - 1);
    let r = s.regions[n - 1];
    let here = listed(r.dependent(r.mask & b.writes() == 0), MAX_THREADS as int);
    if i == n - 1 {
        let k = choose|k: int| 0 <= k < here.len() && here[k] == access;
        assert((before + here)[before.len() + k] == access);
    } else {
        lemma_dependent_upto(s, b, n - 1, i, access);
        let k = choose|k: int| 0 <= k < before.len() && before[k] == access;
        assert(s.dependent_upto(b, n)[k] == access);
    }
}

/// The cell remembers `access` as the last of thread `t`, an access by
/// `action`: wherever it touched the cell, and as a write wherever it wrote.
pub open spec fn remembers(s: StateModel, action: Action, t: int, access: Access) -> bool {
    forall|i: int|
        0 <= i < s.regions.len() ==> {
            &&& (#[trigger] s.regions[i]).mask & action.touches() != 0
                ==> s.regions[i].last_access@[t] == Some(access)
            &&& s.regions[i].mask & action.writes() != 0
                ==> s.regions[i].last_non_load_access@[t] == Some(access)
        }
}

proof fn lemma_recorded(s: StateModel, a: Action, t: int, access: Access)
    requires
        0 <= t < MAX_THREADS,
    ensures
        remembers(s.accessed(a, t, access), a, t, access),
{
    let n = s.accessed(a, t, access);
    assert forall|i: int| 0 <= i < n.regions.len() implies {
        &&& (#[trigger] n.regions[i]).mask & a.touches() != 0 ==> n.regions[i].last_access@[t]
            == Some(access)
        &&& n.regions[i].mask & a.writes() != 0 ==> n.regions[i].last_non_load_access@[t] == Some(
            access,
        )
    } by {
        lemma_masks(0, s.regions[i].mask, 0, a.writes(), a.reads(), 0, 0);
    }
}

/// What other threads do to the cell does not make it forget.
proof fn lemma_still_remembered(
    s: StateModel,
    a: Action,
    t: int,
    access: Access,
    b: Action,
    u: int,
    other: Access,
)
    requires
        0 <= t < MAX_THREADS,
        0 <= u < MAX_THREADS,
        u != t,
        remembers(s, a, t, access),
    ensures
        remembers(s.accessed(b, u, other), a, t, access),
{
    let n = s.accessed(b, u, other);
    assert forall|i: int| 0 <= i < n.regions.len() implies {
        &&& (#[trigger] n.regions[i]).mask & a.touches() != 0 ==> n.regions[i].last_access@[t]
            == Some(access)
        &&& n.regions[i].mask & a.writes() != 0 ==> n.regions[i].last_non_load_access@[t] == Some(
            access,
        )
    } by {
        assert(n.regions[i].mask == s.regions[i].mask);
    }
}

proof fn lemma_cut_remembers(
    s: StateModel,
    mask: u128,
    n: int,
    a: Action,
    t: int,
    access: Access,
)
    requires
        0 <= n <= s.regions.len(),
        remembers(s, a, t, access),
    ensures
        remembers(
            StateModel { regions: cut_upto(s.regions, mask, n), ..s },
            a,
            t,
            access,
        ),
        cut_upto(s.regions, mask, n).len() >= s.regions.len(),
        forall|i: int|
            n <= i < s.regions.len() ==> #[trigger] cut_upto(s.regions, mask, n)[i]
                == s.regions[i],
    decreases n,
{
    if n > 0 {
        lemma_cut_remembers(s, mask, n - 1, a, t, access);
        let before = StateModel { regions: cut_upto(s.regions, mask, n - 1), ..s };
        let after = StateModel { regions: cut_upto(s.regions, mask, n), ..s };
        let r = s.regions[n - 1];
        assert(before.regions[n - 1] == r);
        assert forall|i: int| 0 <= i < after.regions.len() implies {
            &&& (#[trigger] after.regions[i]).mask & a.touches() != 0
                ==> after.regions[i].last_access@[t] == Some(access)
            &&& after.regions[i].mask & a.writes() != 0
                ==> after.regions[i].last_non_load_access@[t] == Some(access)
        } by {
            lemma_masks(0, r.mask, mask, a.writes(), 0, 0, 0);
            lemma_masks(0, r.mask, mask, a.touches(), 0, 0, 0);
            if straddles(r, mask) {
                if i != n - 1 && i < before.regions.len() {
                    assert(after.regions[i] == before.regions[i]);
                }
            }
        }
    }
}

proof fn lemma_prepared_remembers(s: StateModel, b: Action, a: Action, t: int, access: Access)
    requires
        s.wf(),
        remembers(s, a, t, access),
    ensures
        remembers(s.prepared(b), a, t, access),
        partition(s.prepared(b).regions),
{
    match b {
        Action::Opaque => {},
        Action::Load { mask } | Action::Store { mask } => {
            lemma_cut_remembers(s, mask, s.regions.len() as int, a, t, access);
            partition_refines(s, mask, 0);
        },
        Action::Rmw { read, write } => {
            let p = s.partitioned(read);
            lemma_cut_remembers(s, read, s.regions.len() as int, a, t, access);
            partition_refines(s, read, 0);
            lemma_cut_remembers(p, write, p.regions.len() as int, a, t, access);
            partition_refines(p, write, 0);
        },
    }
}

/// An access that the cell remembers is among those that a conflicting action
/// is checked against.
proof fn lemma_found(s: StateModel, a: Action, b: Action, t: int, access: Access)
    requires
        partition(s.regions),
        0 <= t < MAX_THREADS,
        remembers(s, a, t, access),
        a.conflicts(b),
    ensures
        s.dependent(b).contains(access),
{
    let (aw, ar, bw, br) = (a.writes(), a.reads(), b.writes(), b.reads());
    let n = s.regions.len() as int;
    let m = if aw & br != 0 {
        aw & br
    } else if ar & bw != 0 {
        ar & bw
    } else {
        aw & bw
    };
    lemma_masks(0, 0, m, 0, 0, 0, 0);
    let i = lemma_some_region(s.regions, m, n);
    let r = s.regions[i];
    lemma_masks(0, r.mask, 0, aw, ar, 0, br);
    lemma_masks(0, r.mask, 0, aw, ar, 0, bw);
    lemma_masks(0, r.mask, 0, ar, aw, 0, bw);
    lemma_masks(0, r.mask, 0, bw, br, 0, 0);
    lemma_listed(r.dependent(r.mask & bw == 0), MAX_THREADS as int, t, access);
    lemma_dependent_upto(s, b, n, i, access);
}

proof fn lemma_accessed_wf(s: StateModel, a: Action, t: int, access: Access)
    requires
        s.wf(),
    ensures
        s.accessed(a, t, access).wf(),
{
    let n = s.accessed(a, t, access);
    assert forall|i: int| 0 <= i < n.regions.len() implies (#[trigger] n.regions[i]).wf()
        && n.regions[i].mask == s.regions[i].mask && n.regions[i].stores
        == s.regions[i].stores by {
        assert(s.regions[i].wf());
    }
    lemma_owned_prefix(s.regions, n.regions, s.regions.len() as int);
    assert forall|i: int, j: int|
        #![trigger n.regions[i], n.regions[j]]
        0 <= i < j < n.regions.len() implies n.regions[i].mask & n.regions[j].mask == 0 by {
        assert(s.regions[i].mask & s.regions[j].mask == 0);
    }
    assert forall|i: int, k: int, u: int|
        #![trigger n.regions[i].stores[k].first_seen.at(u)]
        0 <= i < n.regions.len() && 0 <= k < n.regions[i].stores.len() && 0 <= u < MAX_THREADS
            && n.regions[i].stores[k].first_seen.touched_by(u) implies bits::holds(
        n.touched_by,
        u,
    ) by {
        assert(s.regions[i].stores[k].first_seen.touched_by(u));
    }
}

/// The operations that an operation is checked against: once thread `t` has
/// accessed an object, every operation that conflicts with that access finds
/// it. On a mutex and on a condition variable all operations do. On an atomic
/// cell the access is found however the cell is cut for the later operation,
/// and also when another thread has accessed the cell in between.
pub proof fn a_conflicting_access_is_found(
    o: ObjectModel,
    a: Action,
    b: Action,
    t: int,
    access: Access,
    between: Action,
    u: int,
    other: Access,
)
    requires
        o.wf(),
        0 <= t < MAX_THREADS,
        0 <= u < MAX_THREADS,
        u != t,
    ensures
        !(o is Atomic) ==> o.accessed(a, t, access).dependent(b).contains(access),
        a.conflicts(b) ==> o.accessed(a, t, access).dependent(b).contains(access),
        o matches ObjectModel::Atomic(s) ==> (a.conflicts(b) ==> {
            &&& s.accessed(a, t, access).prepared(b).dependent(b).contains(access)
            &&& s.accessed(a, t, access).accessed(between, u, other).prepared(b).dependent(
                b,
            ).contains(access)
        }),
{
    let n = o.accessed(a, t, access);
    match o {
        ObjectModel::Atomic(s) => {
            let s1 = s.accessed(a, t, access);
            let s2 = s1.accessed(between, u, other);
            lemma_accessed_wf(s, a, t, access);
            lemma_accessed_wf(s1, between, u, other);
            lemma_recorded(s, a, t, access);
            lemma_still_remembered(s1, a, t, access, between, u, other);
            lemma_prepared_remembers(s1, b, a, t, access);
            lemma_prepared_remembers(s2, b, a, t, access);
            if a.conflicts(b) {
                lemma_found(s1, a, b, t, access);
                lemma_found(s1.prepared(b), a, b, t, access);
                lemma_found(s2.prepared(b), a, b, t, access);
            }
        },
        _ => {
            assert(n.dependent(b)[0] == access);
        },
    }
}

proof fn lemma_joined_with(vv: VersionVec, accesses: Seq<Access>, n: int, k: int)
    requires
        0 <= n <= accesses.len(),
    ensures
        vv.below(joined_with(vv, accesses, n)),
        0 <= k < n ==> accesses[k].precedes(joined_with(vv, accesses, n)),
    decreases n,
{
    broadcast use VersionVec::lemma_joined_at;

    if n > 0 {
        lemma_joined_with(vv, accesses, n - 1, k);
    }
}

/// The clocks of the operations order those that conflict: when a decision
/// lets a thread operate, its clock goes to or above that of every access that
/// the operation is checked against and of the thread's own last operation,
/// strictly above in the thread's own place; and the access that is recorded
/// under that clock, at the branch of the decision, is found by every conflicting
/// operation from then on. So an access that a thread finds with a clock that is
/// not below its own is one that it has not yet been ordered after. The next
/// decision looks at the object again.
pub proof fn a_decision_orders_what_conflicts(
    e: ExecModel,
    c: Seq<Frozen>,
    found: Access,
    b: Action,
)
    requires
        e.inv(c),
    ensures
        e.scheduled(c) matches Ok(s) ==> (s.after.threads.active matches Some(next) ==> (
        e.threads.threads[next as int].operation matches Some(op) ==> {
            let clock = s.after.threads.threads[next as int].dpor_vv;
            let before = e.threads.threads[next as int].dpor_vv;
            let after = s.after.objects[op.object as int];
            &&& before.below(clock)
            &&& before.at(next as int) < clock.at(next as int)
            &&& e.objects[op.object as int].dependent(op.action).contains(found) ==> {
                &&& found.precedes(clock)
                &&& found.dpor_vv.at(next as int) < clock.at(next as int)
            }
            &&& op.action.conflicts(b) || !(after is Atomic) ==> exists|x: Access| #[trigger]
                after.dependent(b).contains(x) && x.dpor_vv == clock && x.path_id == e.path.pos
            &&& s.after.dpor_update == Some(op.object)
            &&& s.after.path.pos == e.path.pos + 1
        })),
{
    broadcast use VersionVec::lemma_joined_at;
    broadcast use VersionVec::lemma_bumped_at;

    if let Ok(s) = e.scheduled(c) {
        if let Some(next) = s.after.threads.active {
            if let Some(op) = e.threads.threads[next as int].operation {
                let t = ThreadsModel { active: Some(next), ..e.threads.rescued() };
                let o = e.objects[op.object as int];
                let deps = o.dependent(op.action);
                let before = e.threads.threads[next as int].dpor_vv;
                let vv = joined_with(before, deps, deps.len() as int);
                let clock = s.after.threads.threads[next as int].dpor_vv;
                assert(t.current().dpor_vv == before);
                assert(clock == vv.bumped(next as int));
                lemma_joined_with(before, deps, deps.len() as int, 0);
                if deps.contains(found) {
                    let k = choose|k: int| 0 <= k < deps.len() && deps[k] == found;
                    lemma_joined_with(before, deps, deps.len() as int, k);
                }
                lemma_raced_from(e, e.path, c, 0);
                let p1 = e.raced_from(e.path, c, 0).0;
                let x = Access { path_id: p1.pos as usize, dpor_vv: clock };
                assert(o.wf());
                let other = if next == 0 {
                    1int
                } else {
                    0int
                };
                a_conflicting_access_is_found(o, op.action, b, next as int, x, b, other, x);
                assert(s.after.objects[op.object as int] == o.accessed(
                    op.action,
                    next as int,
                    x,
                ));
            }
        }
    }
}

proof fn lemma_same_dependent(s: StateModel, a: Action, b: Action, t: int, access: Access, n: int)
    requires
        0 <= n <= s.regions.len(),
        0 <= t < MAX_THREADS,
        cut_along(s, a.writes()),
        cut_along(s, b.writes()),
        !a.conflicts(b),
    ensures
        s.accessed(a, t, access).dependent_upto(b, n) == s.dependent_upto(b, n),
    decreases n,
{
    if n > 0 {
        lemma_same_dependent(s, a, b, t, access, n - 1);
        let r = s.regions[n - 1];
        let q = s.accessed(a, t, access).regions[n - 1];
        let (aw, ar, bw, br) = (a.writes(), a.reads(), b.writes(), b.reads());
        assert(!straddles(r, aw) && !straddles(r, bw));
        lemma_masks(0, r.mask, 0, aw, ar, bw, br);
        lemma_masks(0, r.mask, 0, aw, aw, bw, br);
        lemma_masks(0, r.mask, 0, bw, br, 0, 0);
        assert(q.mask == r.mask);
        if r.mask & b.touches() != 0 {
            assert(q.dependent(r.mask & bw == 0) == r.dependent(r.mask & bw == 0));
        }
    }
}

/// An operation is checked against nothing else: an access that does not
/// conflict with it leaves the accesses that it finds as they were, once the
/// cell is cut along what both may write.
pub proof fn an_independent_access_is_not_found(
    s: StateModel,
    a: Action,
    b: Action,
    t: int,
    access: Access,
)
    requires
        0 <= t < MAX_THREADS,
        cut_along(s, a.writes()),
        cut_along(s, b.writes()),
        !a.conflicts(b),
    ensures
        s.accessed(a, t, access).dependent(b) == s.dependent(b),
{
    lemma_same_dependent(s, a, b, t, access, s.regions.len() as int);
}

} // verus!
