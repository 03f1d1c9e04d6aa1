//! How what one thread has seen reaches another.
use vstd::prelude::*;

use crate::rt::atomic::region::{live, RegionModel};
use crate::rt::atomic::rmw::ReadHalf;
use crate::rt::atomic::snapshot::{in_order, Reading};
use crate::rt::atomic::state::StateModel;
use crate::rt::atomic::store::Store;
use crate::rt::bits;
use crate::rt::claims::Frozen;
use crate::rt::condvar::CondvarModel;
use crate::rt::execution::ExecModel;
use crate::rt::fence::{
    drew_from_objects, drew_from_regions, drew_from_stores, lemma_drew_from_objects,
    untouched_cells_have_nothing_to_acquire,
};
use crate::rt::history::{did, is_history, Deed, Moment};
use crate::rt::memory::mapped_by;
use crate::rt::object::ObjectModel;
use crate::rt::order::Order;
use crate::rt::path::PathModel;
use crate::rt::table::in_range;
use crate::rt::thread::{Action, Operation, State, Thread, ThreadsModel};
use crate::rt::vv::VersionVec;
use crate::rt::wait::{Phase, Wait};

verus! {

// ----- what a thread has seen stays seen -----
/// Thread `b` is `a` later: it has seen no less, and what its stores hand on
/// is what they did, or all that `a` had seen.
pub open spec fn later(a: Thread, b: Thread) -> bool {
    &&& a.causality.below(b.causality)
    &&& b.released == a.released || a.causality.below(b.released)
}

/// Every thread of `t` is later in `n`.
pub open spec fn grown(t: ThreadsModel, n: ThreadsModel) -> bool {
    &&& t.threads.len() <= n.threads.len()
    &&& forall|k: int| 0 <= k < t.threads.len() ==> later(t.threads[k], #[trigger] n.threads[k])
}

proof fn lemma_same(t: ThreadsModel, n: ThreadsModel)
    requires
        t.threads.len() <= n.threads.len(),
        forall|k: int|
            0 <= k < t.threads.len() ==> (#[trigger] n.threads[k]).causality
                == t.threads[k].causality && n.threads[k].released == t.threads[k].released,
    ensures
        grown(t, n),
{
}

proof fn lemma_trans(a: ThreadsModel, b: ThreadsModel, c: ThreadsModel)
    requires
        grown(a, b),
        grown(b, c),
    ensures
        grown(a, c),
{
    assert forall|k: int| 0 <= k < a.threads.len() implies later(
        a.threads[k],
        #[trigger] c.threads[k],
    ) by {
        let (x, y, z) = (a.threads[k], b.threads[k], c.threads[k]);
        assert(later(x, y) && later(y, z));
        VersionVec::below_is_partial_order(x.causality, y.causality, z.causality);
        VersionVec::below_is_partial_order(x.causality, y.causality, z.released);
    }
}

proof fn lemma_learned(t: ThreadsModel, view: VersionVec)
    requires
        t.running(),
    ensures
        grown(t, t.learned(view)),
        t.learned(view).running(),
        t.learned(view).me() == t.me(),
        view.below(t.learned(view).current().causality),
{
    VersionVec::join_is_least_upper_bound(t.current().causality, view, view);
}

proof fn lemma_synced(t: ThreadsModel, view: VersionVec, order: Order)
    requires
        t.running(),
    ensures
        grown(t, t.synced(view, order)),
        t.synced(view, order).running(),
        t.synced(view, order).me() == t.me(),
        order.joins() ==> view.below(t.synced(view, order).current().causality),
{
    lemma_learned(t, view);
}

proof fn lemma_ticked(t: ThreadsModel)
    requires
        t.running(),
        t.can_tick(),
    ensures
        grown(t, t.ticked()),
        t.ticked().running(),
        t.ticked().me() == t.me(),
{
    broadcast use VersionVec::lemma_bumped_at;

}

proof fn lemma_view_kept(view: VersionVec, t: ThreadsModel, n: ThreadsModel)
    requires
        grown(t, n),
        t.running(),
        n.me() == t.me(),
        view.below(t.current().causality),
    ensures
        view.below(n.current().causality),
{
    assert(later(t.threads[t.me()], n.threads[t.me()]));
    VersionVec::below_is_partial_order(view, t.current().causality, n.current().causality);
}

// ----- loads -----
/// A load gives its thread the release views of what it reads.
pub proof fn lemma_composed(
    r: Reading,
    covered: Seq<usize>,
    k: int,
    order: Order,
    floor: bool,
    value: u128,
)
    requires
        r.threads.running(),
        0 <= k <= covered.len(),
        in_order(r.cell, covered),
    ensures
        r.cell.composed(
            r.path,
            r.threads,
            covered,
            k,
            order,
            floor,
            r.resolved,
            value,
        ) matches Ok(c) ==> {
            let slots = r.slots(covered, k, order, floor);
            &&& grown(r.threads, c.threads)
            &&& c.threads.running()
            &&& c.threads.me() == r.threads.me()
            &&& slots.len() == covered.len() - k
            &&& order.joins() ==> forall|q: int|
                0 <= q < slots.len() ==> r.cell.regions[covered[k + q] as int].stores[
                    #[trigger] slots[q]].sync.happens_before.below(c.threads.current().causality)
        },
    decreases covered.len() - k,
{
    if k < covered.len() {
        if let Some((index, rest)) = r.next(covered, k, order, floor) {
            let ri = covered[k] as int;
            let region = r.cell.regions[ri];
            let view = region.stores[index].sync.happens_before;
            lemma_synced(r.threads, view, order);
            lemma_composed(
                rest,
                covered,
                k + 1,
                order,
                floor,
                value | (region.stores[index].value & region.mask),
            );
            if let Ok(c) = r.cell.composed(
                r.path,
                r.threads,
                covered,
                k,
                order,
                floor,
                r.resolved,
                value,
            ) {
                lemma_trans(r.threads, rest.threads, c.threads);
                let slots = r.slots(covered, k, order, floor);
                let more = rest.slots(covered, k + 1, order, floor);
                if order.joins() {
                    lemma_view_kept(view, rest.threads, c.threads);
                    assert forall|q: int| 0 <= q < slots.len() implies r.cell.regions[covered[k
                        + q] as int].stores[#[trigger] slots[q]].sync.happens_before.below(
                        c.threads.current().causality,
                    ) by {
                        if q > 0 {
                            assert(slots[q] == more[q - 1]);
                            assert(covered[k] < covered[k + q]);
                            assert(rest.cell.regions[covered[k + 1 + (q - 1)] as int]
                                == r.cell.regions[covered[k + q] as int]);
                        }
                    }
                }
            }
        } else {
            assert(r.cell.composed(
                r.path,
                r.threads,
                covered,
                k,
                order,
                floor,
                r.resolved,
                value,
            ) is Err);
        }
    } else {
        lemma_same(r.threads, r.threads);
    }
}

// ----- read-modify-writes -----
/// The newest store of the region.
pub open spec fn last_store(r: RegionModel) -> Store {
    r.stores[r.newest()]
}

/// The slots of the region are those that its count calls for.
pub open spec fn shaped(r: RegionModel) -> bool {
    0 < r.cnt && r.stores.len() == live(r.cnt)
}

proof fn lemma_appended(r: RegionModel, s: Store)
    requires
        shaped(r),
    ensures
        shaped(r.appended(s)),
        last_store(r.appended(s)) == s,
{
}

/// What the write half of a read-modify-write by the active thread of `t`
/// makes of a region that it read at `read`.
pub open spec fn carries_on(
    t: ThreadsModel,
    read: Store,
    r: RegionModel,
    after: RegionModel,
    next: u128,
    write_mask: u128,
    success: Order,
) -> bool {
    let new = last_store(after);
    r.mask & write_mask != 0 ==> {
        &&& after.cnt == r.cnt + 1
        &&& new.value == next
        &&& new.creator == t.me()
        &&& new.rmw_read == Some(read.as_read())
        &&& read.sync.happens_before.below(new.sync.happens_before)
        &&& t.current().released.below(new.sync.happens_before)
        &&& success.publishes() ==> t.current().causality.below(new.sync.happens_before)
    }
}

proof fn lemma_committed(
    r: RegionModel,
    t: ThreadsModel,
    t1: ThreadsModel,
    index: int,
    next: u128,
    write_mask: u128,
    success: Order,
    sc_rank: Option<u32>,
    op_id: u64,
)
    requires
        shaped(r),
        t.running(),
        t1.me() == t.me(),
        grown(t, t1),
        t1.current().released == t.current().released,
        0 <= t.me() <= usize::MAX,
    ensures
        carries_on(
            t,
            r.stores[index],
            r,
            r.rmw_committed(t1, index, next, success, sc_rank, op_id),
            next,
            write_mask,
            success,
        ),
        shaped(r.rmw_committed(t1, index, next, success, sc_rank, op_id)),
        last_store(r.rmw_committed(t1, index, next, success, sc_rank, op_id)).sc_rank == sc_rank,
{
    broadcast use VersionVec::lemma_joined_at;

    let s = r.stores[index];
    let new = Store {
        rmw_read: Some(s.as_read()),
        ..r.new_store(t1, s.sync, next, success, sc_rank, op_id)
    };
    lemma_appended(r, new);
    assert(later(t.threads[t.me()], t1.threads[t.me()]));
    VersionVec::below_is_partial_order(
        t.current().causality,
        t1.current().causality,
        new.sync.happens_before,
    );
}

pub proof fn lemma_write_half(
    s: StateModel,
    t: ThreadsModel,
    reads: Seq<(usize, usize)>,
    j: int,
    current: u128,
    next: u128,
    write_mask: u128,
    success: Order,
    sc_rank: Option<u32>,
    op_id: u64,
)
    requires
        t.running(),
        0 <= j <= reads.len(),
        forall|i: int| 0 <= i < s.regions.len() ==> shaped(#[trigger] s.regions[i]),
        forall|i: int| 0 <= i < reads.len() ==> (#[trigger] reads[i]).0 < s.regions.len(),
        forall|k: int, l: int|
            #![trigger reads[k], reads[l]]
            0 <= k < l < reads.len() ==> reads[k].0 != reads[l].0,
    ensures
        s.rmw_write(t, reads, j, current, next, write_mask, success, sc_rank, op_id) matches Ok(w)
            ==> {
            &&& grown(t, w.threads)
            &&& w.threads.running()
            &&& w.threads.me() == t.me()
            &&& w.threads.current().released == t.current().released
            &&& w.threads.sc_clock == t.sc_clock
            &&& w.cell.regions.len() == s.regions.len()
            &&& forall|i: int|
                0 <= i < s.regions.len() && (forall|k: int|
                    j <= k < reads.len() ==> (#[trigger] reads[k]).0 != i) ==>
                    #[trigger] w.cell.regions[i] == s.regions[i]
            &&& forall|k: int|
                j <= k < reads.len() ==> {
                    let (ri, index) = #[trigger] reads[k];
                    let r = s.regions[ri as int];
                    let read = r.stores[index as int];
                    let after = w.cell.regions[ri as int];
                    &&& success.joins() ==> read.sync.happens_before.below(
                        w.threads.current().causality,
                    )
                    &&& carries_on(t, read, r, after, next, write_mask, success)
                    &&& r.mask & write_mask != 0 ==> last_store(after).sc_rank == sc_rank
                }
        },
    decreases reads.len() - j,
{
    if let Ok(w) = s.rmw_write(
        t,
        reads,
        j,
        current,
        next,
        write_mask,
        success,
        sc_rank,
        op_id,
    ) {
        if j < reads.len() {
            let ri = reads[j].0 as int;
            let index = reads[j].1 as int;
            let r = s.regions[ri];
            let view = r.stores[index].sync.happens_before;
            let t1 = t.synced(view, success);
            lemma_synced(t, view, success);
            assert(shaped(r));
            lemma_committed(r, t, t1, index, next, write_mask, success, sc_rank, op_id);
            let n = if r.mask & write_mask != 0 {
                s.with_region(ri, r.rmw_committed(t1, index, next, success, sc_rank, op_id))
            } else {
                s.with_region(ri, r.preserving(t1, index, op_id, write_mask)).prior_reads_checked(
                    ri,
                    write_mask,
                    t.me(),
                )->Ok_0
            };
            assert(shaped(n.regions[ri]));
            assert forall|i: int| 0 <= i < n.regions.len() implies shaped(
                #[trigger] n.regions[i],
            ) by {
                if i != ri {
                    assert(n.regions[i] == s.regions[i]);
                }
            }
            lemma_write_half(
                n,
                t1,
                reads,
                j + 1,
                current,
                next,
                write_mask,
                success,
                sc_rank,
                op_id,
            );
            lemma_trans(t, t1, w.threads);
            assert forall|i: int|
                0 <= i < s.regions.len() && (forall|k: int|
                    j <= k < reads.len() ==> (#[trigger] reads[k]).0 != i) implies
                #[trigger] w.cell.regions[i] == s.regions[i] by {
                assert(reads[j].0 != i);
                assert(n.regions[i] == s.regions[i]);
            }
            assert forall|k: int| j <= k < reads.len() implies {
                let (qi, slot) = #[trigger] reads[k];
                let q = s.regions[qi as int];
                let read = q.stores[slot as int];
                let after = w.cell.regions[qi as int];
                &&& success.joins() ==> read.sync.happens_before.below(
                    w.threads.current().causality,
                )
                &&& carries_on(t, read, q, after, next, write_mask, success)
                &&& q.mask & write_mask != 0 ==> last_store(after).sc_rank == sc_rank
            } by {
                let (qi, slot) = reads[k];
                if k == j {
                    assert(forall|l: int|
                        j + 1 <= l < reads.len() ==> (#[trigger] reads[l]).0 != qi);
                    assert(w.cell.regions[ri] == n.regions[ri]);
                    if success.joins() {
                        lemma_view_kept(view, t1, w.threads);
                    }
                } else {
                    assert(reads[j].0 != qi);
                    assert(n.regions[qi as int] == s.regions[qi as int]);
                    let new = last_store(w.cell.regions[qi as int]);
                    assert(later(t.threads[t.me()], t1.threads[t.me()]));
                    VersionVec::below_is_partial_order(
                        t.current().causality,
                        t1.current().causality,
                        new.sync.happens_before,
                    );
                }
            }
        } else {
            lemma_same(t, t);
        }
    }
}

pub proof fn lemma_failed(
    s: StateModel,
    t: ThreadsModel,
    reads: Seq<(usize, usize)>,
    j: int,
    failure: Order,
)
    requires
        t.running(),
        0 <= j <= reads.len(),
    ensures
        ({
            let n = s.rmw_failed(t, reads, j, failure);
            &&& grown(t, n)
            &&& n.running()
            &&& n.me() == t.me()
            &&& failure.joins() ==> forall|k: int|
                j <= k < reads.len() ==> s.regions[(#[trigger] reads[k]).0 as int].stores[
                    reads[k].1 as int].sync.happens_before.below(n.current().causality)
        }),
    decreases reads.len() - j,
{
    if j < reads.len() {
        let view = s.regions[reads[j].0 as int].stores[reads[j].1 as int].sync.happens_before;
        let t1 = t.synced(view, failure);
        lemma_synced(t, view, failure);
        lemma_failed(s, t1, reads, j + 1, failure);
        let n = s.rmw_failed(t, reads, j, failure);
        lemma_trans(t, t1, n);
        if failure.joins() {
            lemma_view_kept(view, t1, n);
        }
    } else {
        lemma_same(t, t);
    }
}

// ----- fences -----
proof fn lemma_drew_stores(t: ThreadsModel, stores: Seq<Store>, n: int)
    requires
        t.running(),
        0 <= n <= stores.len(),
    ensures
        ({
            let r = drew_from_stores(t, stores, n);
            &&& grown(t, r)
            &&& r.running()
            &&& r.me() == t.me()
            &&& r.seq_cst_causality == t.seq_cst_causality
            &&& forall|k: int|
                0 <= k < n && (#[trigger] stores[k]).first_seen.touched_by(t.me())
                    ==> stores[k].sync.happens_before.below(r.current().causality)
        }),
    decreases n,
{
    if n > 0 {
        lemma_drew_stores(t, stores, n - 1);
        let before = drew_from_stores(t, stores, n - 1);
        let r = drew_from_stores(t, stores, n);
        let view = stores[n - 1].sync.happens_before;
        lemma_learned(before, view);
        if stores[n - 1].first_seen.touched_by(t.me()) {
            lemma_trans(t, before, r);
            assert forall|k: int|
                0 <= k < n && (#[trigger] stores[k]).first_seen.touched_by(
                    t.me(),
                ) implies stores[k].sync.happens_before.below(r.current().causality) by {
                if k < n - 1 {
                    lemma_view_kept(stores[k].sync.happens_before, before, r);
                }
            }
        }
    } else {
        lemma_same(t, t);
    }
}

/// The view of slot `k` of the region is known to the active thread, if it has
/// itself touched the slot.
pub open spec fn acquired(r: RegionModel, k: int, t: ThreadsModel) -> bool {
    0 <= k < r.stores.len() && r.stores[k].first_seen.touched_by(t.me())
        ==> r.stores[k].sync.happens_before.below(t.current().causality)
}

proof fn lemma_drew_regions(t: ThreadsModel, regions: Seq<RegionModel>, n: int)
    requires
        t.running(),
        0 <= n <= regions.len(),
    ensures
        ({
            let r = drew_from_regions(t, regions, n);
            &&& grown(t, r)
            &&& r.running()
            &&& r.me() == t.me()
            &&& r.seq_cst_causality == t.seq_cst_causality
            &&& forall|i: int, k: int| 0 <= i < n ==> #[trigger] acquired(regions[i], k, r)
        }),
    decreases n,
{
    if n > 0 {
        lemma_drew_regions(t, regions, n - 1);
        let before = drew_from_regions(t, regions, n - 1);
        let r = drew_from_regions(t, regions, n);
        let stores = regions[n - 1].stores;
        lemma_drew_stores(before, stores, stores.len() as int);
        lemma_trans(t, before, r);
        assert forall|i: int, k: int| 0 <= i < n implies #[trigger] acquired(regions[i], k, r) by {
            if i < n - 1 {
                assert(acquired(regions[i], k, before));
                if 0 <= k < regions[i].stores.len() && regions[i].stores[k].first_seen.touched_by(
                    t.me(),
                ) {
                    lemma_view_kept(regions[i].stores[k].sync.happens_before, before, r);
                }
            }
        }
    } else {
        lemma_same(t, t);
    }
}

/// The active thread knows the view of every store of the object that it has
/// itself touched.
pub open spec fn acquired_all(o: ObjectModel, t: ThreadsModel) -> bool {
    o matches ObjectModel::Atomic(s) ==> forall|i: int, k: int|
        0 <= i < s.regions.len() ==> #[trigger] acquired(s.regions[i], k, t)
}

proof fn lemma_drew_objects(t: ThreadsModel, objects: Seq<ObjectModel>, n: int)
    requires
        t.running(),
        0 <= n <= objects.len(),
        forall|i: int| 0 <= i < objects.len() ==> (#[trigger] objects[i]).wf(),
    ensures
        drew_from_objects(t, objects, n) matches Ok(r) ==> {
            &&& grown(t, r)
            &&& r.running()
            &&& r.me() == t.me()
            &&& r.seq_cst_causality == t.seq_cst_causality
            &&& forall|i: int| 0 <= i < n ==> acquired_all(#[trigger] objects[i], r)
        },
    decreases n,
{
    if n > 0 {
        lemma_drew_objects(t, objects, n - 1);
        if let Ok(r) = drew_from_objects(t, objects, n) {
            let before = drew_from_objects(t, objects, n - 1)->Ok_0;
            if let ObjectModel::Atomic(s) = objects[n - 1] {
                assert(objects[n - 1].wf());
                lemma_drew_regions(before, s.regions, s.regions.len() as int);
                if !bits::holds(s.touched_by, t.me()) {
                    untouched_cells_have_nothing_to_acquire(before, s, s.regions.len() as int);
                }
                lemma_trans(t, before, r);
            }
            assert forall|i: int| 0 <= i < n implies acquired_all(#[trigger] objects[i], r) by {
                if i < n - 1 {
                    assert(acquired_all(objects[i], before));
                    if let ObjectModel::Atomic(s) = objects[i] {
                        assert forall|j: int, k: int|
                            0 <= j < s.regions.len() implies #[trigger] acquired(
                            s.regions[j],
                            k,
                            r,
                        ) by {
                            assert(acquired(s.regions[j], k, before));
                            let q = s.regions[j];
                            if 0 <= k < q.stores.len() && q.stores[k].first_seen.touched_by(
                                t.me(),
                            ) {
                                lemma_view_kept(q.stores[k].sync.happens_before, before, r);
                            }
                        }
                    }
                }
            }
        }
    } else {
        lemma_same(t, t);
    }
}

/// What a fence does. One that acquires has its thread know the release view
/// of every store that the thread has read or written itself. One that
/// releases has the thread hand on, with whatever it stores from then on, all
/// that it had seen when it came to the fence. And sequentially consistent
/// fences hand on to each other: the thread of the later one has seen all that
/// those of the earlier ones had, and comes after them in the total order.
pub proof fn fences_synchronize(e: ExecModel, c: Seq<Frozen>, order: Order, object: int)
    requires
        e.running(c),
    ensures
        e.fenced(order) matches Ok(n) ==> {
            let before = e.threads.current();
            let after = n.threads.current();
            &&& order != Order::Relaxed
            &&& n.threads.me() == e.threads.me()
            &&& grown(e.threads, n.threads)
            &&& before.causality.at(e.threads.me()) < after.causality.at(e.threads.me())
            &&& order.joins() && 0 <= object < e.objects.len() ==> acquired_all(
                e.objects[object],
                n.threads,
            )
            &&& order.publishes() ==> before.causality.below(after.released)
            &&& order == Order::SeqCst ==> {
                &&& e.threads.seq_cst_causality.below(after.causality)
                &&& e.threads.seq_cst_causality.below(n.threads.seq_cst_causality)
                &&& before.causality.below(n.threads.seq_cst_causality)
                &&& after.causality.below(n.threads.seq_cst_causality)
                &&& after.sc_fence_pos == Some(e.threads.sc_clock)
                &&& e.threads.sc_clock < n.threads.sc_clock
            }
            &&& order != Order::SeqCst ==> n.objects == e.objects && n.threads.seq_cst_causality
                == e.threads.seq_cst_causality
        },
{
    broadcast use VersionVec::lemma_joined_at;
    broadcast use VersionVec::lemma_bumped_at;

    if let Ok(n) = e.fenced(order) {
        let t = e.threads.ticked();
        lemma_ticked(e.threads);
        lemma_drew_objects(t, e.objects, e.objects.len() as int);
        lemma_drew_from_objects(t, e.objects, e.objects.len() as int);
        let me = e.threads.me();
        let (before, after) = (e.threads.current(), n.threads.current());
        if order == Order::Release {
            assert(grown(e.threads, n.threads));
        } else {
            let t1 = drew_from_objects(t, e.objects, e.objects.len() as int)->Ok_0;
            lemma_trans(e.threads, t, t1);
            assert(later(t.threads[me], t1.threads[me]));
            let t2 = t1.release_fenced();
            lemma_view_kept(before.causality, e.threads, t1);
            if order == Order::AcqRel {
                assert(grown(e.threads, n.threads));
            }
            if order == Order::SeqCst {
                lemma_learned(t2, t2.seq_cst_causality);
                let t3 = t2.met_fences();
                assert(grown(e.threads, t2));
                lemma_trans(e.threads, t2, t2.learned(t2.seq_cst_causality));
                assert(grown(e.threads, n.threads));
                assert(after.causality == t3.current().causality);
                lemma_view_kept(before.causality, e.threads, t3);
            }
            if order.joins() && 0 <= object < e.objects.len() {
                assert(acquired_all(e.objects[object], t1));
                if let ObjectModel::Atomic(s) = e.objects[object] {
                    assert forall|i: int, k: int|
                        0 <= i < s.regions.len() implies #[trigger] acquired(
                        s.regions[i],
                        k,
                        n.threads,
                    ) by {
                        assert(acquired(s.regions[i], k, t1));
                        let q = s.regions[i];
                        if 0 <= k < q.stores.len() && q.stores[k].first_seen.touched_by(me) {
                            VersionVec::below_is_partial_order(
                                q.stores[k].sync.happens_before,
                                t1.current().causality,
                                after.causality,
                            );
                        }
                    }
                }
            }
        }
    }
}

// ----- every operation -----
/// What the threads have seen, what the mutexes hand on and what the
/// sequentially consistent fences have met is in `n` no less than in `e`.
pub open spec fn moved_on(e: ExecModel, n: ExecModel) -> bool {
    &&& grown(e.threads, n.threads)
    &&& e.threads.seq_cst_causality.below(n.threads.seq_cst_causality)
    &&& forall|o: int| #[trigger]
        e.is_mutex(o) ==> n.is_mutex(o) && e.mutex(o).sync.happens_before.below(
            n.mutex(o).sync.happens_before,
        )
}

proof fn lemma_moved_trans(a: ExecModel, b: ExecModel, c: ExecModel)
    requires
        moved_on(a, b),
        moved_on(b, c),
    ensures
        moved_on(a, c),
{
    lemma_trans(a.threads, b.threads, c.threads);
    VersionVec::below_is_partial_order(
        a.threads.seq_cst_causality,
        b.threads.seq_cst_causality,
        c.threads.seq_cst_causality,
    );
    assert forall|o: int| #[trigger] a.is_mutex(o) implies c.is_mutex(o) && a.mutex(
        o,
    ).sync.happens_before.below(c.mutex(o).sync.happens_before) by {
        assert(b.is_mutex(o));
        VersionVec::below_is_partial_order(
            a.mutex(o).sync.happens_before,
            b.mutex(o).sync.happens_before,
            c.mutex(o).sync.happens_before,
        );
    }
}

/// Only the threads differ.
proof fn lemma_threads_moved(e: ExecModel, n: ExecModel)
    requires
        n.objects == e.objects,
        grown(e.threads, n.threads),
        n.threads.seq_cst_causality == e.threads.seq_cst_causality,
    ensures
        moved_on(e, n),
{
}

proof fn lemma_cell_moved(e: ExecModel, n: ExecModel, object: int, cell: StateModel)
    requires
        e.is_cell(object),
        n.objects == e.objects.update(object, ObjectModel::Atomic(cell)),
        grown(e.threads, n.threads),
        n.threads.seq_cst_causality == e.threads.seq_cst_causality,
    ensures
        moved_on(e, n),
{
    assert forall|o: int| #[trigger] e.is_mutex(o) implies n.is_mutex(o) && e.mutex(
        o,
    ).sync.happens_before.below(n.mutex(o).sync.happens_before) by {
        assert(o != object);
    }
}

proof fn lemma_scheduled_moved(e: ExecModel, c: Seq<Frozen>)
    requires
        forall|i: int|
            0 <= i < e.threads.threads.len() ==> ((#[trigger] e.threads.threads[i]).operation matches Some(
            op,
        ) ==> op.object < e.objects.len()),
    ensures
        e.scheduled(c) matches Ok(s) ==> moved_on(e, s.after),
{
    let (p1, c1) = e.raced_from(e.path, c, 0);
    let t = e.threads.rescued();
    if let Ok(s) = e.scheduled(c) {
        let n = s.after;
        lemma_same(e.threads, n.threads);
        assert forall|o: int| #[trigger] e.is_mutex(o) implies n.is_mutex(o) && e.mutex(
            o,
        ).sync.happens_before.below(n.mutex(o).sync.happens_before) by {
            if let Ok((p2, Some(next), covered)) = p1.thread_branch(c1, t.seed()) {
                assert(t.threads[next].operation == e.threads.threads[next].operation);
                if let Some(op) = t.threads[next].operation {
                    if op.object == o {
                        assert(n.mutex(o).sync == e.mutex(o).sync);
                    } else {
                        assert(n.objects[o] == e.objects[o]);
                    }
                }
            }
        }
    }
}

/// A decision after the active thread of `e` was replaced by one whose
/// operation is on an object.
proof fn lemma_decision_moved(e: ExecModel, n: ExecModel, c: Seq<Frozen>)
    requires
        e.running(c),
        moved_on(e, n),
        n.objects.len() == e.objects.len(),
        n.threads.threads.len() == e.threads.threads.len(),
        n.threads.me() == e.threads.me(),
        n.threads.current().operation matches Some(op) ==> op.object < e.objects.len(),
        forall|i: int|
            0 <= i < e.threads.threads.len() && i != e.threads.me() ==> (
            #[trigger] n.threads.threads[i]).operation == e.threads.threads[i].operation,
    ensures
        n.scheduled(c) matches Ok(s) ==> moved_on(e, s.after),
{
    assert forall|i: int| 0 <= i < n.threads.threads.len() implies ((
    #[trigger] n.threads.threads[i]).operation matches Some(op) ==> op.object
        < n.objects.len()) by {
        if i != e.threads.me() {
            assert(e.threads.threads[i].operation == n.threads.threads[i].operation);
        }
    }
    lemma_scheduled_moved(n, c);
    if let Ok(s) = n.scheduled(c) {
        lemma_moved_trans(e, n, s.after);
    }
}

proof fn lemma_unparked(t: ThreadsModel, id: int)
    requires
        t.running(),
        0 <= id < t.threads.len(),
    ensures
        grown(t, t.unparked(id)),
        t.unparked(id).running(),
        t.unparked(id).me() == t.me(),
        t.unparked(id).seq_cst_causality == t.seq_cst_causality,
        t.current().causality.below(t.unparked(id).threads[id].causality),
{
    VersionVec::join_is_least_upper_bound(
        t.threads[id].causality,
        t.current().causality,
        t.current().causality,
    );
    VersionVec::below_is_partial_order(
        t.current().causality,
        t.current().causality,
        t.current().causality,
    );
}

proof fn lemma_woke(e: ExecModel, waiters: Seq<usize>, n: int)
    requires
        e.threads.running(),
        0 <= n <= waiters.len(),
    ensures
        moved_on(e, e.woke(waiters, n)),
        e.woke(waiters, n).threads.running(),
        e.woke(waiters, n).threads.me() == e.threads.me(),
        e.woke(waiters, n).threads.threads.len() == e.threads.threads.len(),
        e.threads.current().causality.below(e.woke(waiters, n).threads.current().causality),
        forall|k: int|
            0 <= k < n && #[trigger] waiters[k] < e.threads.threads.len()
                ==> e.threads.current().causality.below(
                e.woke(waiters, n).threads.threads[waiters[k] as int].causality,
            ),
    decreases n,
{
    let me = e.threads.current().causality;
    VersionVec::below_is_partial_order(me, me, me);
    if n > 0 {
        lemma_woke(e, waiters, n - 1);
        let before = e.woke(waiters, n - 1);
        let after = e.woke(waiters, n);
        let id = waiters[n - 1] as int;
        if id < before.threads.threads.len() {
            lemma_unparked(before.threads, id);
            lemma_threads_moved(before, after);
            lemma_moved_trans(e, before, after);
            lemma_view_kept(me, before.threads, after.threads);
            VersionVec::below_is_partial_order(
                me,
                before.threads.current().causality,
                after.threads.threads[id].causality,
            );
        }
        assert forall|k: int|
            0 <= k < n && #[trigger] waiters[k] < e.threads.threads.len() implies me.below(
            after.threads.threads[waiters[k] as int].causality,
        ) by {
            if k < n - 1 && id < before.threads.threads.len() {
                let w = waiters[k] as int;
                assert(later(before.threads.threads[w], after.threads.threads[w]));
                VersionVec::below_is_partial_order(
                    me,
                    before.threads.threads[w].causality,
                    after.threads.threads[w].causality,
                );
            }
        }
    } else {
        lemma_same(e.threads, e.threads);
    }
}

proof fn lemma_contenders(t: ThreadsModel, object: usize, state: State)
    requires
        t.running(),
    ensures
        grown(t, t.contenders(object, state)),
        t.contenders(object, state).running(),
        t.contenders(object, state).me() == t.me(),
        t.contenders(object, state).current() == t.current(),
{
    lemma_same(t, t.contenders(object, state));
}

proof fn lemma_locked(e: ExecModel, object: usize)
    requires
        e.threads.running(),
        e.is_mutex(object as int),
    ensures
        e.locked(object) matches Ok(n) ==> moved_on(e, n),
{
    let m = e.mutex(object as int);
    let t = e.threads.synced(m.sync.happens_before, Order::Acquire);
    lemma_synced(e.threads, m.sync.happens_before, Order::Acquire);
    lemma_contenders(t, object, State::Blocked { timed: false });
    lemma_trans(e.threads, t, t.contenders(object, State::Blocked { timed: false }));
}

proof fn lemma_unlocked(e: ExecModel, object: usize)
    requires
        e.threads.running(),
        e.is_mutex(object as int),
    ensures
        moved_on(e, e.unlocked(object)),
        e.unlocked(object).threads.running(),
        e.unlocked(object).threads.current() == e.threads.current(),
        e.unlocked(object).threads.me() == e.threads.me(),
{
    broadcast use VersionVec::lemma_joined_at;

    lemma_contenders(e.threads, object, State::Runnable { unparked: false });
    let n = e.unlocked(object);
    assert forall|o: int| #[trigger] e.is_mutex(o) implies n.is_mutex(o) && e.mutex(
        o,
    ).sync.happens_before.below(n.mutex(o).sync.happens_before) by {}
}

proof fn lemma_loaded_moved(
    e: ExecModel,
    c: Seq<Frozen>,
    object: int,
    mask: u128,
    order: Order,
    coherent: bool,
)
    requires
        e.running(c),
        e.is_cell(object),
    ensures
        e.loaded(object, mask, order, coherent) matches Ok((n, _)) ==> moved_on(e, n),
{
    if let Ok((n, v)) = e.loaded(object, mask, order, coherent) {
        let t = e.threads.ticked();
        lemma_ticked(e.threads);
        let p = e.cell(object).partitioned(mask);
        let s1 = p.tracked_load(t)->Ok_0;
        let s2 = s1.scope_checked(mask, order.joins(), t.me())->Ok_0;
        lemma_composed_grows(
            s2,
            e.path,
            t,
            s2.covered(mask),
            0,
            order,
            coherent,
            Seq::empty(),
            0,
        );
        lemma_trans(e.threads, t, n.threads);
        lemma_cell_moved(e, n, object, n.cell(object));
    }
}

proof fn lemma_composed_grows(
    s: StateModel,
    path: PathModel,
    t: ThreadsModel,
    covered: Seq<usize>,
    k: int,
    order: Order,
    floor: bool,
    resolved: Seq<(u64, bool)>,
    value: u128,
)
    requires
        t.running(),
    ensures
        s.composed(path, t, covered, k, order, floor, resolved, value) matches Ok(c) ==> grown(
            t,
            c.threads,
        ) && c.threads.seq_cst_causality == t.seq_cst_causality,
    decreases covered.len() - k,
{
    if k < covered.len() {
        let pushed = if path.traversed() {
            match s.offered(t, covered, k, order, floor, resolved) {
                Ok(seed) => path.with_load(seed),
                Err(f) => Err(f),
            }
        } else {
            Ok(path)
        };
        if let Ok(p1) = pushed {
            if let Ok((p2, index)) = p1.load_branch() {
                let ri = covered[k] as int;
                let r = s.regions[ri];
                let fixed = if covered.len() > 1 {
                    r.resolve(index, resolved)
                } else {
                    Some(resolved)
                };
                if index < r.stores.len() && fixed is Some {
                    let t1 = t.synced(r.stores[index].sync.happens_before, order);
                    lemma_synced(t, r.stores[index].sync.happens_before, order);
                    lemma_composed_grows(
                        s.with_region(ri, r.read(t, index)),
                        p2,
                        t1,
                        covered,
                        k + 1,
                        order,
                        floor,
                        fixed->Some_0,
                        value | (r.stores[index].value & r.mask),
                    );
                    if let Ok(c) = s.composed(
                        path,
                        t,
                        covered,
                        k,
                        order,
                        floor,
                        resolved,
                        value,
                    ) {
                        lemma_trans(t, t1, c.threads);
                    }
                }
            }
        }
    } else {
        lemma_same(t, t);
    }
}

proof fn lemma_stored_moved(
    e: ExecModel,
    c: Seq<Frozen>,
    object: int,
    mask: u128,
    value: u128,
    order: Order,
)
    requires
        e.running(c),
        e.is_cell(object),
    ensures
        e.stored(object, mask, value, order) matches Ok(n) ==> moved_on(e, n),
{
    if let Ok(n) = e.stored(object, mask, value, order) {
        lemma_ticked(e.threads);
        lemma_same(e.threads.ticked(), n.threads);
        lemma_trans(e.threads, e.threads.ticked(), n.threads);
        lemma_cell_moved(e, n, object, n.cell(object));
    }
}

proof fn lemma_written_grows(
    s: StateModel,
    t: ThreadsModel,
    reads: Seq<(usize, usize)>,
    j: int,
    current: u128,
    next: u128,
    write_mask: u128,
    success: Order,
    sc_rank: Option<u32>,
    op_id: u64,
)
    requires
        t.running(),
    ensures
        s.rmw_write(t, reads, j, current, next, write_mask, success, sc_rank, op_id) matches Ok(w)
            ==> grown(t, w.threads) && w.threads.seq_cst_causality == t.seq_cst_causality,
    decreases reads.len() - j,
{
    if let Ok(w) = s.rmw_write(
        t,
        reads,
        j,
        current,
        next,
        write_mask,
        success,
        sc_rank,
        op_id,
    ) {
        if j < reads.len() {
            let ri = reads[j].0 as int;
            let index = reads[j].1 as int;
            let r = s.regions[ri];
            let t1 = t.synced(r.stores[index].sync.happens_before, success);
            lemma_synced(t, r.stores[index].sync.happens_before, success);
            let n = if r.mask & write_mask != 0 {
                s.with_region(ri, r.rmw_committed(t1, index, next, success, sc_rank, op_id))
            } else {
                s.with_region(ri, r.preserving(t1, index, op_id, write_mask)).prior_reads_checked(
                    ri,
                    write_mask,
                    t.me(),
                )->Ok_0
            };
            lemma_written_grows(
                n,
                t1,
                reads,
                j + 1,
                current,
                next,
                write_mask,
                success,
                sc_rank,
                op_id,
            );
            lemma_trans(t, t1, w.threads);
        } else {
            lemma_same(t, t);
        }
    }
}

proof fn lemma_failed_grows(
    s: StateModel,
    t: ThreadsModel,
    reads: Seq<(usize, usize)>,
    j: int,
    failure: Order,
)
    requires
        t.running(),
    ensures
        grown(t, s.rmw_failed(t, reads, j, failure)),
        s.rmw_failed(t, reads, j, failure).seq_cst_causality == t.seq_cst_causality,
    decreases reads.len() - j,
{
    if j < reads.len() {
        let view = s.regions[reads[j].0 as int].stores[reads[j].1 as int].sync.happens_before;
        lemma_synced(t, view, failure);
        lemma_failed_grows(s, t.synced(view, failure), reads, j + 1, failure);
        lemma_trans(t, t.synced(view, failure), s.rmw_failed(t, reads, j, failure));
    } else {
        lemma_same(t, t);
    }
}

proof fn lemma_rmw_moved(
    e: ExecModel,
    c: Seq<Frozen>,
    object: int,
    half: ReadHalf,
    next: u128,
    write: u128,
    success: Order,
    failure: Order,
)
    requires
        e.running(c),
        e.is_cell(object),
        e.threads.can_tick(),
    ensures
        e.rmw_done(object, half, next, write, success) matches Ok(n) ==> moved_on(e, n),
        moved_on(e, e.rmw_undone(object, half, failure)),
{
    let t = e.threads.ticked();
    lemma_ticked(e.threads);
    if let Ok(n) = e.rmw_done(object, half, next, write, success) {
        let s = half.cell.tracked_store(t)->Ok_0;
        let sc = success == Order::SeqCst;
        let t1 = if sc {
            t.sc_advanced()
        } else {
            t
        };
        lemma_same(t, t1);
        lemma_written_grows(
            s.next_op(),
            t1,
            half.reads,
            0,
            half.value,
            next,
            write,
            success,
            if sc {
                Some(t.sc_clock)
            } else {
                None
            },
            s.next_op().op_clock,
        );
        lemma_trans(e.threads, t, t1);
        lemma_trans(e.threads, t1, n.threads);
        lemma_cell_moved(e, n, object, n.cell(object));
    }
    let u = e.rmw_undone(object, half, failure);
    lemma_failed_grows(half.cell, t, half.reads, 0, failure);
    lemma_trans(e.threads, t, u.threads);
    lemma_cell_moved(e, u, object, u.cell(object));
}

proof fn lemma_begun_moved(e: ExecModel, c: Seq<Frozen>, object: usize, action: Action)
    requires
        e.running(c),
        object < e.objects.len(),
    ensures
        e.begun(c, object, action) matches Ok(s) ==> moved_on(e, s.after),
{
    let p = if e.is_cell(object as int) {
        e.with_cell(object as int, e.cell(object as int).prepared(action))
    } else {
        e
    };
    let n = p.announced(Some(Operation { object, action }));
    lemma_same(e.threads, n.threads);
    if e.is_cell(object as int) {
        lemma_cell_moved(e, n, object as int, e.cell(object as int).prepared(action));
    } else {
        lemma_threads_moved(e, n);
    }
    lemma_decision_moved(e, n, c);
}

/// A condition variable is replaced, and the path may be.
proof fn lemma_condvar_moved(e: ExecModel, n: ExecModel, object: int, cv: CondvarModel)
    requires
        e.is_condvar(object),
        n.objects == e.objects || n.objects == e.objects.update(object, ObjectModel::Condvar(cv)),
        n.threads == e.threads,
    ensures
        moved_on(e, n),
{
    lemma_same(e.threads, n.threads);
    assert forall|o: int| #[trigger] e.is_mutex(o) implies n.is_mutex(o) && n.mutex(o) == e.mutex(
        o,
    ) by {
        assert(o != object);
    }
}

/// The execution `n` is `e` later, with the operations of the other threads as
/// they were.
spec fn onward(e: ExecModel, n: ExecModel) -> bool {
    &&& moved_on(e, n)
    &&& n.objects.len() == e.objects.len()
    &&& n.threads.threads.len() == e.threads.threads.len()
    &&& n.threads.active == e.threads.active
    &&& forall|i: int|
        0 <= i < e.threads.threads.len() && i != e.threads.me() ==> (
        #[trigger] n.threads.threads[i]).operation == e.threads.threads[i].operation
}

proof fn lemma_relocking_moved(e: ExecModel, n: ExecModel, c: Seq<Frozen>, w: Wait, timed_out: bool)
    requires
        e.running(c),
        onward(e, n),
        n.is_mutex(w.mutex as int),
    ensures
        n.relocking(c, w, timed_out) matches Ok(s) ==> moved_on(e, s.after),
{
    let k = n.contending(w.mutex);
    lemma_same(n.threads, k.threads);
    lemma_threads_moved(n, k);
    lemma_moved_trans(e, n, k);
    lemma_decision_moved(e, k, c);
}

proof fn lemma_unlocked_onward(e: ExecModel, n: ExecModel, object: usize)
    requires
        e.threads.running(),
        onward(e, n),
        n.is_mutex(object as int),
    ensures
        onward(e, n.unlocked(object)),
{
    lemma_unlocked(n, object);
    lemma_moved_trans(e, n, n.unlocked(object));
}

proof fn lemma_waited_moved(e: ExecModel, c: Seq<Frozen>, w: Wait)
    requires
        e.running(c),
        e.is_condvar(w.condvar as int),
        e.is_mutex(w.mutex as int),
    ensures
        e.waited(c, w) matches Ok(s) ==> moved_on(e, s.after),
{
    let cv = w.condvar as int;
    match w.phase {
        Phase::Announce => {
            lemma_begun_moved(e, c, w.condvar, Action::Opaque);
        },
        Phase::Decide => {
            if let Ok((e1, spur)) = e.spurred(cv) {
                lemma_condvar_moved(e, e1, cv, e1.condvar(cv));
                if spur {
                    lemma_unlocked_onward(e, e1, w.mutex);
                    lemma_relocking_moved(e, e1.unlocked(w.mutex), c, w, w.timed);
                } else {
                    let e2 = e1.enqueued(cv);
                    lemma_condvar_moved(e1, e2, cv, e2.condvar(cv));
                    lemma_moved_trans(e, e1, e2);
                    lemma_unlocked_onward(e, e2, w.mutex);
                    let e3 = e2.unlocked(w.mutex);
                    if e3.has_unpark() {
                        let n = e3.unpark_consumed();
                        lemma_same(e3.threads, n.threads);
                        lemma_threads_moved(e3, n);
                        lemma_moved_trans(e, e3, n);
                    } else {
                        let n = e3.blocked(w.timed);
                        lemma_same(e3.threads, n.threads);
                        lemma_threads_moved(e3, n);
                        lemma_moved_trans(e, e3, n);
                        lemma_decision_moved(e, n, c);
                    }
                }
            }
        },
        Phase::Woken => {
            let (e1, waiting) = e.dequeued_self(cv);
            lemma_condvar_moved(e, e1, cv, e1.condvar(cv));
            lemma_relocking_moved(e, e1, c, w, w.timed && waiting);
        },
        Phase::Relock { timed_out } => {
            lemma_locked(e, w.mutex);
        },
    }
}

proof fn lemma_sync_moved(m: Moment, deed: Deed)
    requires
        deed is Lock || deed is Unlock || deed is NotifyOne || deed is NotifyAll
            || deed is Unpark,
    ensures
        did(m, deed) matches Some(n) ==> moved_on(m.0, n.0),
{
    reveal(did);
    let (e, c) = m;
    if did(m, deed) is Some {
        match deed {
            Deed::Lock { object } => {
                lemma_locked(e, object);
            },
            Deed::Unlock { object } => {
                lemma_unlocked(e, object);
            },
            Deed::Unpark { thread } => {
                lemma_unparked(e.threads, thread as int);
                lemma_threads_moved(
                    e,
                    ExecModel { threads: e.threads.unparked(thread as int), ..e },
                );
            },
            Deed::NotifyOne { object } | Deed::NotifyAll { object } => {
                let o = object as int;
                let cv = e.condvar(o);
                let one = e.with_condvar(o, cv.dequeued());
                let all = e.with_condvar(o, CondvarModel { waiters: Seq::empty(), ..cv });
                lemma_condvar_moved(e, one, o, one.condvar(o));
                lemma_condvar_moved(e, all, o, all.condvar(o));
                lemma_woke(one, cv.waiters, 0);
                if cv.waiters.len() > 0 {
                    lemma_woke(one, cv.waiters, 1);
                    lemma_moved_trans(e, one, one.woke(cv.waiters, 1));
                }
                lemma_woke(all, cv.waiters, cv.waiters.len() as int);
                lemma_moved_trans(e, one, one.woke(cv.waiters, 0));
                lemma_moved_trans(e, all, all.woke(cv.waiters, cv.waiters.len() as int));
            },
            _ => {},
        }
    }
}

proof fn lemma_decided_moved(m: Moment, deed: Deed)
    requires
        deed is BeginLock || deed is Park || deed is Yield || deed is Done,
    ensures
        did(m, deed) matches Some(n) ==> moved_on(m.0, n.0),
{
    reveal(did);
    let (e, c) = m;
    if did(m, deed) is Some {
        let n = match deed {
            Deed::BeginLock { object } => e.contending(object),
            Deed::Park { timed } => if e.has_unpark() {
                e.unpark_consumed()
            } else {
                e.blocked(timed)
            },
            Deed::Yield => e.yielding(),
            _ => e.ending(),
        };
        lemma_same(e.threads, n.threads);
        lemma_threads_moved(e, n);
        lemma_decision_moved(e, n, c);
    }
}

proof fn lemma_cell_did_moved(m: Moment, deed: Deed)
    requires
        deed is Load || deed is Store || deed is Rmw,
    ensures
        did(m, deed) matches Some(n) ==> moved_on(m.0, n.0),
{
    reveal(did);
    let (e, c) = m;
    if did(m, deed) is Some {
        match deed {
            Deed::Load { object, mask, order, coherent } => {
                lemma_loaded_moved(e, c, object as int, mask, order, coherent);
            },
            Deed::Store { object, mask, value, order } => {
                lemma_stored_moved(e, c, object as int, mask, value, order);
            },
            Deed::Rmw { object, read, write, success, failure, next } => {
                let half = e.rmw_begun(object as int, read, write, success, failure)->Ok_0;
                let value = match next {
                    Some(v) => v,
                    None => 0,
                };
                lemma_rmw_moved(e, c, object as int, half, value, write, success, failure);
            },
            _ => {},
        }
    }
}

proof fn lemma_plain_did_moved(m: Moment, deed: Deed)
    requires
        deed is UnsyncLoad || deed is BeginMut || deed is EndMut || deed is NewCell
            || deed is NewMutex || deed is NewCondvar || deed is Register || deed is Materialize
            || deed is Unpublish || deed is Steer || deed is Publish || deed is Spawn,
        deed is Spawn ==> m.0.threads.can_tick(),
    ensures
        did(m, deed) matches Some(n) ==> moved_on(m.0, n.0),
{
    reveal(did);
    let (e, c) = m;
    if let Some((n, d)) = did(m, deed) {
        if let Deed::Publish { base, len } = deed {
            let span = (base, (base + len) as u64);
            let view = mapped_by(e.published, span, e.published.len() as int);
            lemma_learned(e.threads, view);
        } else if deed is Spawn {
            lemma_ticked(e.threads);
            lemma_same(e.threads.ticked(), n.threads);
            lemma_trans(e.threads, e.threads.ticked(), n.threads);
        } else {
            lemma_same(e.threads, n.threads);
        }
    }
}

proof fn lemma_zeroed_moved(e: ExecModel, c: Seq<Frozen>, base: u64, len: u64)
    requires
        e.inv(c),
        e.objects.len() <= usize::MAX,
    ensures
        moved_on(e, e.zeroed(base, len)),
{
    let n = e.zeroed(base, len);
    lemma_same(e.threads, n.threads);
    assert forall|o: int| #[trigger] e.is_mutex(o) implies n.is_mutex(o) && n.mutex(o) == e.mutex(
        o,
    ) by {
        if e.cell_within(o as usize, base, len) {
            let k = choose|k: u64|
                #![trigger e.materialized.contains_key(k)]
                e.materialized.contains_key(k) && in_range(k, base, len) && e.materialized[k]
                    == o as usize;
            assert(e.objects[e.materialized[k] as int] is Atomic);
        }
    }
}

proof fn lemma_fenced_moved(e: ExecModel, c: Seq<Frozen>, order: Order)
    requires
        e.running(c),
    ensures
        e.fenced(order) matches Ok(n) ==> moved_on(e, n),
{
    fences_synchronize(e, c, order, 0);
    if let Ok(n) = e.fenced(order) {
        if order == Order::SeqCst {
            assert forall|o: int| #[trigger] e.is_mutex(o) implies n.is_mutex(o) && n.mutex(o)
                == e.mutex(o) by {}
        }
    }
}

/// Whatever an operation does, every thread has seen no less after it, a thread
/// hands on with its stores what it did before or more than it had seen, and
/// the mutexes and the sequentially consistent fences hand on no less.
pub proof fn an_operation_forgets_nothing(m: Moment, deed: Deed)
    requires
        deed is Spawn ==> m.0.threads.can_tick(),
    ensures
        did(m, deed) matches Some(n) ==> moved_on(m.0, n.0),
{
    reveal(did);
    if did(m, deed) is Some {
        match deed {
            Deed::Load { .. } | Deed::Store { .. } | Deed::Rmw { .. } => {
                lemma_cell_did_moved(m, deed);
            },
            Deed::Begin { object, action } => {
                lemma_begun_moved(m.0, m.1, object, action);
            },
            Deed::Advance { wait } => {
                lemma_waited_moved(m.0, m.1, wait);
            },
            Deed::BeginLock { .. } | Deed::Park { .. } | Deed::Yield | Deed::Done => {
                lemma_decided_moved(m, deed);
            },
            Deed::Lock { .. }
            | Deed::Unlock { .. }
            | Deed::NotifyOne { .. }
            | Deed::NotifyAll { .. }
            | Deed::Unpark { .. } => {
                lemma_sync_moved(m, deed);
            },
            Deed::Fence { order } => {
                lemma_fenced_moved(m.0, m.1, order);
            },
            Deed::Zero { base, len } => {
                lemma_zeroed_moved(m.0, m.1, base, len);
            },
            _ => {
                lemma_plain_did_moved(m, deed);
            },
        }
    }
}

/// So it is from any moment of an execution to any later one.
pub proof fn nothing_is_forgotten(h: Seq<Moment>, deeds: Seq<Deed>, i: int, j: int)
    requires
        is_history(h, deeds),
        0 <= i <= j < h.len(),
        forall|k: int|
            i <= k < j && (#[trigger] deeds[k]) is Spawn ==> h[k].0.threads.can_tick(),
    ensures
        moved_on(h[i].0, h[j].0),
    decreases j - i,
{
    if i < j {
        nothing_is_forgotten(h, deeds, i, j - 1);
        assert(did(h[j - 1], deeds[j - 1]) == Some(h[j - 1 + 1]));
        an_operation_forgets_nothing(h[j - 1], deeds[j - 1]);
        lemma_moved_trans(h[i].0, h[j - 1].0, h[j].0);
    } else {
        let e = h[i].0;
        lemma_same(e.threads, e.threads);
        lemma_threads_moved(e, e);
    }
}

} // verus!
