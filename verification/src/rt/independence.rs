//! What operations that do not conflict do to each other.
//!
//! Two operations on one object conflict where one of them writes bits that the
//! other reads or writes. Those that do not give the same values in either
//! order: neither changes what the other can read, and what they write does not
//! meet.
use vstd::prelude::*;

use crate::rt::atomic::load::ViewModel;
use crate::rt::atomic::region::RegionModel;
use crate::rt::atomic::rmw::ReadHalf;
use crate::rt::atomic::snapshot::{bits_of, in_order};
use crate::rt::atomic::state::{cut_upto, lemma_covered, straddles, StateModel};
use crate::rt::atomic::store::Store;
use crate::rt::execution::ExecModel;
use crate::rt::fault::Fault;
use crate::rt::history::{did, Deed, Moment};
use crate::rt::ops::{lemma_composed_threads, lemma_failed_threads, lemma_written_threads};
use crate::rt::order::Order;
use crate::rt::path::PathModel;
use crate::rt::thread::{Action, ThreadsModel};
use crate::rt::values::{
    a_rmw_writes_its_bits_alone, a_store_writes_its_bits_alone, cut_along, lemma_cut_along,
    lemma_still_cut,
};

verus! {

// ----- what an operation leaves alone -----
/// The same store, as far as reading it gives anything: only who has seen it,
/// and what is known to be before it, may differ.
pub open spec fn same_store(a: Store, b: Store) -> bool {
    b == (Store {
        modification_order: b.modification_order,
        first_seen: b.first_seen,
        ..a
    })
}

/// The regions hold the same stores in the same slots.
pub open spec fn same_stores(a: RegionModel, b: RegionModel) -> bool {
    &&& b.mask == a.mask
    &&& b.cnt == a.cnt
    &&& b.stores.len() == a.stores.len()
    &&& forall|k: int| 0 <= k < a.stores.len() ==> same_store(a.stores[k], #[trigger] b.stores[k])
}

/// Region `b` is region `a` after an operation that read the bits under `read`
/// and wrote those under `write`.
pub open spec fn left_alone(a: RegionModel, b: RegionModel, read: u128, write: u128) -> bool {
    &&& b.mask == a.mask
    &&& a.mask & read == 0 && a.mask & write == 0 ==> b == a
    &&& a.mask & write == 0 ==> same_stores(a, b)
}

/// The same of every region of a cell.
pub open spec fn all_left_alone(
    a: Seq<RegionModel>,
    b: Seq<RegionModel>,
    read: u128,
    write: u128,
) -> bool {
    &&& b.len() == a.len()
    &&& forall|i: int| 0 <= i < a.len() ==> left_alone(a[i], #[trigger] b[i], read, write)
}

/// The cells refuse the same accesses.
pub open spec fn same_guard(a: StateModel, b: StateModel) -> bool {
    b.is_mutating == a.is_mutating && b.unsync_mut_at == a.unsync_mut_at
}

proof fn lemma_cut_already(regions: Seq<RegionModel>, mask: u128, n: int)
    requires
        0 <= n <= regions.len(),
        forall|i: int|
            0 <= i < regions.len() ==> !straddles(#[trigger] regions[i], mask),
    ensures
        cut_upto(regions, mask, n) == regions,
    decreases n,
{
    if n > 0 {
        lemma_cut_already(regions, mask, n - 1);
    }
}

/// A cell that is cut along a mask is not cut again.
proof fn lemma_partitioned_already(cell: StateModel, mask: u128)
    requires
        cut_along(cell, mask),
    ensures
        cell.partitioned(mask) == cell,
{
    lemma_cut_already(cell.regions, mask, cell.regions.len() as int);
}

/// Every region holds the same stores, and those that `covered` does not name
/// from `k` on are as they were.
spec fn only_read(
    a: Seq<RegionModel>,
    b: Seq<RegionModel>,
    covered: Seq<usize>,
    k: int,
) -> bool {
    &&& b.len() == a.len()
    &&& forall|i: int|
        0 <= i < a.len() ==> {
            &&& same_stores(a[i], #[trigger] b[i])
            &&& (forall|j: int| k <= j < covered.len() ==> #[trigger] covered[j] != i) ==> b[i]
                == a[i]
        }
}

proof fn lemma_read_only(r: RegionModel, t: ThreadsModel, index: int)
    requires
        0 <= index < r.stores.len(),
    ensures
        same_stores(r, r.read(t, index)),
{
}

proof fn lemma_only_read_on(
    a: Seq<RegionModel>,
    b: Seq<RegionModel>,
    c: Seq<RegionModel>,
    covered: Seq<usize>,
    k: int,
)
    requires
        0 <= k < covered.len(),
        covered[k] < a.len(),
        b == a.update(covered[k] as int, b[covered[k] as int]),
        same_stores(a[covered[k] as int], b[covered[k] as int]),
        only_read(b, c, covered, k + 1),
    ensures
        only_read(a, c, covered, k),
{
    assert forall|i: int| 0 <= i < a.len() implies {
        &&& same_stores(a[i], #[trigger] c[i])
        &&& (forall|j: int| k <= j < covered.len() ==> #[trigger] covered[j] != i) ==> c[i] == a[i]
    } by {
        assert(same_stores(b[i], c[i]));
        assert(same_stores(a[i], b[i]));
        assert forall|m: int| 0 <= m < a[i].stores.len() implies same_store(
            a[i].stores[m],
            #[trigger] c[i].stores[m],
        ) by {
            assert(same_store(a[i].stores[m], b[i].stores[m]));
        }
        if forall|j: int| k <= j < covered.len() ==> #[trigger] covered[j] != i {
            assert(covered[k] != i);
        }
    }
}

proof fn lemma_composed_only_reads(
    s: StateModel,
    path: PathModel,
    t: ThreadsModel,
    covered: Seq<usize>,
    k: int,
    order: Order,
    floor: bool,
    resolved: Seq<(u64, bool)>,
    value: u128,
)
    requires
        0 <= k <= covered.len(),
        forall|i: int| 0 <= i < covered.len() ==> (#[trigger] covered[i]) < s.regions.len(),
    ensures
        s.composed(path, t, covered, k, order, floor, resolved, value) matches Ok(c) ==> {
            &&& only_read(s.regions, c.cell.regions, covered, k)
            &&& same_guard(s, c.cell)
        },
    decreases covered.len() - k,
{
    if k < covered.len() {
        let pushed = if path.traversed() {
            match s.offered(t, covered, k, order, floor, resolved) {
                Ok(seed) => path.with_load(seed),
                Err(f) => Err(f),
            }
        } else {
            Ok(path)
        };
        if let Ok(p1) = pushed {
            if let Ok((p2, index)) = p1.load_branch() {
                let ri = covered[k] as int;
                let r = s.regions[ri];
                let fixed = if covered.len() > 1 {
                    r.resolve(index, resolved)
                } else {
                    Some(resolved)
                };
                if index < r.stores.len() && fixed is Some {
                    let n = s.with_region(ri, r.read(t, index));
                    let t1 = t.synced(r.stores[index].sync.happens_before, order);
                    let v = value | (r.stores[index].value & r.mask);
                    lemma_read_only(r, t, index);
                    lemma_composed_only_reads(
                        n,
                        p2,
                        t1,
                        covered,
                        k + 1,
                        order,
                        floor,
                        fixed->Some_0,
                        v,
                    );
                    if let Ok(c) = n.composed(
                        p2,
                        t1,
                        covered,
                        k + 1,
                        order,
                        floor,
                        fixed->Some_0,
                        v,
                    ) {
                        lemma_only_read_on(s.regions, n.regions, c.cell.regions, covered, k);
                    }
                }
            }
        }
    }
}

proof fn lemma_rmw_read_only_reads(
    s: StateModel,
    path: PathModel,
    t: ThreadsModel,
    covered: Seq<usize>,
    k: int,
    reads: Seq<(usize, usize)>,
    value: u128,
)
    requires
        0 <= k <= covered.len(),
        reads.len() == k,
        forall|i: int| 0 <= i < k ==> (#[trigger] reads[i]).0 == covered[i],
        forall|i: int| 0 <= i < covered.len() ==> (#[trigger] covered[i]) < s.regions.len(),
    ensures
        s.rmw_read(path, t, covered, k, reads, value) matches Ok(half) ==> {
            &&& only_read(s.regions, half.cell.regions, covered, k)
            &&& same_guard(s, half.cell)
            &&& half.reads.len() == covered.len()
            &&& forall|i: int| 0 <= i < covered.len() ==> (#[trigger] half.reads[i]).0 == covered[i]
        },
    decreases covered.len() - k,
{
    if k < covered.len() {
        let ri = covered[k];
        let r = s.regions[ri as int];
        let pushed = if path.traversed() {
            path.with_load(r.maximal(r.stores.len() as int))
        } else {
            Ok(path)
        };
        if let Ok(p1) = pushed {
            if let Ok((p2, index)) = p1.load_branch() {
                if index < r.stores.len() {
                    let n = s.with_region(ri as int, r.read(t, index));
                    let more = reads.push((ri, index as usize));
                    let v = value | (r.stores[index].value & r.mask);
                    lemma_read_only(r, t, index);
                    lemma_rmw_read_only_reads(n, p2, t, covered, k + 1, more, v);
                    if let Ok(half) = n.rmw_read(p2, t, covered, k + 1, more, v) {
                        lemma_only_read_on(s.regions, n.regions, half.cell.regions, covered, k);
                    }
                }
            }
        }
    }
}

/// The write half leaves the stores of the regions that it does not write, and
/// the regions that were not read.
spec fn only_written(
    a: Seq<RegionModel>,
    b: Seq<RegionModel>,
    reads: Seq<(usize, usize)>,
    j: int,
    write: u128,
) -> bool {
    &&& b.len() == a.len()
    &&& forall|i: int|
        0 <= i < a.len() ==> {
            &&& (#[trigger] b[i]).mask == a[i].mask
            &&& a[i].mask & write == 0 ==> b[i].cnt == a[i].cnt && b[i].stores == a[i].stores
            &&& (forall|k: int| j <= k < reads.len() ==> (#[trigger] reads[k]).0 != i) ==> b[i]
                == a[i]
        }
}

proof fn lemma_rmw_only_writes(
    s: StateModel,
    t: ThreadsModel,
    reads: Seq<(usize, usize)>,
    j: int,
    current: u128,
    next: u128,
    write_mask: u128,
    success: Order,
    sc_rank: Option<u32>,
    op_id: u64,
)
    requires
        0 <= j <= reads.len(),
        forall|i: int| 0 <= i < reads.len() ==> (#[trigger] reads[i]).0 < s.regions.len(),
    ensures
        s.rmw_write(t, reads, j, current, next, write_mask, success, sc_rank, op_id) matches Ok(w)
            ==> only_written(s.regions, w.cell.regions, reads, j, write_mask) && same_guard(
            s,
            w.cell,
        ),
    decreases reads.len() - j,
{
    if let Ok(w) = s.rmw_write(
        t,
        reads,
        j,
        current,
        next,
        write_mask,
        success,
        sc_rank,
        op_id,
    ) {
        if j < reads.len() {
            let ri = reads[j].0 as int;
            let index = reads[j].1 as int;
            let r = s.regions[ri];
            let t1 = t.synced(r.stores[index].sync.happens_before, success);
            let n = if r.mask & write_mask != 0 {
                s.with_region(ri, r.rmw_committed(t1, index, next, success, sc_rank, op_id))
            } else {
                s.with_region(ri, r.preserving(t1, index, op_id, write_mask)).prior_reads_checked(
                    ri,
                    write_mask,
                    t.me(),
                )->Ok_0
            };
            assert(n.regions.len() == s.regions.len());
            assert(n.regions == s.regions.update(ri, n.regions[ri]));
            lemma_rmw_only_writes(
                n,
                t1,
                reads,
                j + 1,
                current,
                next,
                write_mask,
                success,
                sc_rank,
                op_id,
            );
            let a = s.regions;
            let b = w.cell.regions;
            assert forall|i: int| 0 <= i < a.len() implies {
                &&& (#[trigger] b[i]).mask == a[i].mask
                &&& a[i].mask & write_mask == 0 ==> b[i].cnt == a[i].cnt && b[i].stores
                    == a[i].stores
                &&& (forall|k: int| j <= k < reads.len() ==> (#[trigger] reads[k]).0 != i) ==> b[i]
                    == a[i]
            } by {
                if i != ri {
                    assert(n.regions[i] == a[i]);
                }
                if forall|k: int| j <= k < reads.len() ==> (#[trigger] reads[k]).0 != i {
                    assert(reads[j].0 != i);
                }
            }
        }
    }
}

/// A load leaves the regions that it does not read alone, and the stores of
/// those that it does.
proof fn lemma_load_leaves(
    e: ExecModel,
    object: int,
    mask: u128,
    order: Order,
    coherent: bool,
)
    requires
        e.is_cell(object),
        e.cell(object).regions.len() <= usize::MAX,
        cut_along(e.cell(object), mask),
    ensures
        e.loaded(object, mask, order, coherent) matches Ok((n, _)) ==> all_left_alone(
            e.cell(object).regions,
            n.cell(object).regions,
            mask,
            0,
        ) && same_guard(e.cell(object), n.cell(object)),
{
    let cell = e.cell(object);
    lemma_partitioned_already(cell, mask);
    if let Ok((n, _)) = e.loaded(object, mask, order, coherent) {
        let t = e.threads.ticked();
        let s1 = cell.tracked_load(t)->Ok_0;
        let s2 = s1.scope_checked(mask, order.joins(), t.me())->Ok_0;
        let covered = s2.covered(mask);
        lemma_covered(s2, mask, s2.regions.len() as int);
        lemma_composed_only_reads(
            s2,
            e.path,
            t,
            covered,
            0,
            order,
            coherent,
            Seq::empty(),
            0,
        );
        let after = n.cell(object).regions;
        assert forall|i: int| 0 <= i < cell.regions.len() implies left_alone(
            cell.regions[i],
            #[trigger] after[i],
            mask,
            0,
        ) by {
            lemma_scoped_then_read(cell, s2, after, mask, covered, i);
        }
    }
}

/// What `scope_checked` and the reads that follow leave of one region.
proof fn lemma_scoped_then_read(
    cell: StateModel,
    s2: StateModel,
    after: Seq<RegionModel>,
    mask: u128,
    covered: Seq<usize>,
    i: int,
)
    requires
        0 <= i < cell.regions.len(),
        s2.regions.len() == cell.regions.len(),
        s2.regions[i].mask == cell.regions[i].mask,
        s2.regions[i].cnt == cell.regions[i].cnt,
        s2.regions[i].stores == cell.regions[i].stores,
        cell.regions[i].mask & mask == 0 ==> s2.regions[i] == cell.regions[i],
        only_read(s2.regions, after, covered, 0),
        forall|k: int|
            0 <= k < covered.len() ==> s2.regions[(#[trigger] covered[k]) as int].mask & mask != 0,
    ensures
        left_alone(cell.regions[i], after[i], mask, 0),
        same_stores(cell.regions[i], after[i]),
        cell.regions[i].mask & mask == 0 ==> after[i] == cell.regions[i],
{
    let a = cell.regions[i];
    let b = after[i];
    assert(same_stores(s2.regions[i], b));
    assert forall|k: int| 0 <= k < a.stores.len() implies same_store(
        a.stores[k],
        #[trigger] b.stores[k],
    ) by {
        assert(same_store(s2.regions[i].stores[k], b.stores[k]));
    }
    if a.mask & mask == 0 {
        assert forall|k: int| 0 <= k < covered.len() implies #[trigger] covered[k] != i by {
            assert(s2.regions[covered[k] as int].mask & mask != 0);
        }
    }
}

/// A store leaves the regions that it does not write alone.
proof fn lemma_store_leaves(e: ExecModel, object: int, mask: u128, value: u128, order: Order)
    requires
        e.is_cell(object),
        cut_along(e.cell(object), mask),
    ensures
        e.stored(object, mask, value, order) matches Ok(n) ==> all_left_alone(
            e.cell(object).regions,
            n.cell(object).regions,
            0,
            mask,
        ) && same_guard(e.cell(object), n.cell(object)),
{
    let cell = e.cell(object);
    lemma_partitioned_already(cell, mask);
    if let Ok(n) = e.stored(object, mask, value, order) {
        let after = n.cell(object).regions;
        assert forall|i: int| 0 <= i < cell.regions.len() implies left_alone(
            cell.regions[i],
            #[trigger] after[i],
            0,
            mask,
        ) by {}
    }
}

/// A read-modify-write leaves the regions that it does not read alone, and the
/// stores of those that it does not write.
proof fn lemma_rmw_leaves(
    e: ExecModel,
    object: int,
    read: u128,
    write: u128,
    success: Order,
    failure: Order,
    next: u128,
)
    requires
        e.is_cell(object),
        e.cell(object).regions.len() <= usize::MAX,
        cut_along(e.cell(object), read),
        cut_along(e.cell(object), write),
    ensures
        e.rmw_begun(object, read, write, success, failure) matches Ok(half) ==> {
            let cell = e.cell(object);
            &&& e.rmw_done(object, half, next, write, success) matches Ok(n) ==> all_left_alone(
                cell.regions,
                n.cell(object).regions,
                read,
                write,
            ) && same_guard(cell, n.cell(object))
            &&& same_guard(cell, half.cell)
            &&& all_left_alone(
                cell.regions,
                e.rmw_undone(object, half, failure).cell(object).regions,
                read,
                write,
            )
        },
{
    let cell = e.cell(object);
    lemma_partitioned_already(cell, read);
    lemma_partitioned_already(cell, write);
    if let Ok(half) = e.rmw_begun(object, read, write, success, failure) {
        let t = e.threads.ticked();
        let s1 = cell.tracked_load(t)->Ok_0;
        let s2 = s1.scope_checked(read, success.joins() || failure.joins(), t.me())->Ok_0;
        let covered = s2.covered(read);
        lemma_covered(s2, read, s2.regions.len() as int);
        lemma_rmw_read_only_reads(s2, e.path, t, covered, 0, Seq::empty(), 0);
        let mid = half.cell.regions;
        assert forall|i: int| 0 <= i < cell.regions.len() implies left_alone(
            cell.regions[i],
            #[trigger] mid[i],
            read,
            0,
        ) && same_stores(cell.regions[i], mid[i]) && (cell.regions[i].mask & read == 0 ==> mid[i]
            == cell.regions[i]) by {
            lemma_scoped_then_read(cell, s2, mid, read, covered, i);
        }
        if let Ok(n) = e.rmw_done(object, half, next, write, success) {
            let w = half.cell.tracked_store(t)->Ok_0.next_op();
            assert forall|j: int| 0 <= j < half.reads.len() implies (#[trigger] half.reads[j]).0
                < w.regions.len() by {
                assert(half.reads[j].0 == covered[j]);
            }
            let sc = success == Order::SeqCst;
            lemma_rmw_only_writes(
                w,
                if sc {
                    t.sc_advanced()
                } else {
                    t
                },
                half.reads,
                0,
                half.value,
                next,
                write,
                success,
                if sc {
                    Some(t.sc_clock)
                } else {
                    None
                },
                w.op_clock,
            );
            let after = n.cell(object).regions;
            assert forall|i: int| 0 <= i < cell.regions.len() implies left_alone(
                cell.regions[i],
                #[trigger] after[i],
                read,
                write,
            ) by {
                assert(left_alone(cell.regions[i], mid[i], read, 0));
                assert(same_stores(cell.regions[i], mid[i]));
                let a = cell.regions[i];
                if a.mask & read == 0 {
                    assert forall|k: int| 0 <= k < half.reads.len() implies (
                    #[trigger] half.reads[k]).0 != i by {
                        assert(half.reads[k].0 == covered[k]);
                        assert(s2.regions[covered[k] as int].mask & read != 0);
                    }
                }
                if a.mask & write == 0 {
                    assert(after[i].stores == mid[i].stores);
                    assert forall|k: int| 0 <= k < a.stores.len() implies same_store(
                        a.stores[k],
                        #[trigger] after[i].stores[k],
                    ) by {
                        assert(same_store(a.stores[k], mid[i].stores[k]));
                    }
                }
            }
        }
    }
}

// ----- what a load of other bits gives -----
/// The active threads are the same, and have seen the same.
spec fn same_reader(t: ThreadsModel, u: ThreadsModel) -> bool {
    &&& t.running()
    &&& u.running()
    &&& u.active == t.active
    &&& u.current() == t.current()
}

proof fn lemma_same_readable(
    r: RegionModel,
    t: ThreadsModel,
    u: ThreadsModel,
    view: crate::rt::vv::VersionVec,
    order: Order,
    n: int,
)
    requires
        same_reader(t, u),
    ensures
        r.readable(u, view, order, n) == r.readable(t, view, order, n),
    decreases n,
{
    if n > 0 {
        lemma_same_readable(r, t, u, view, order, n - 1);
        assert(r.superseded(u, view, order, n - 1) == r.superseded(t, view, order, n - 1));
    }
}

/// The cells agree on the regions that a load covers, and, for one that looks at
/// the others too, on all.
spec fn same_lanes(a: StateModel, b: StateModel, covered: Seq<usize>, k: int, floor: bool) -> bool {
    &&& b.regions.len() == a.regions.len()
    &&& forall|i: int|
        k <= i < covered.len() ==> b.regions[(#[trigger] covered[i]) as int]
            == a.regions[covered[i] as int]
    &&& floor ==> b.regions == a.regions
}

proof fn lemma_same_unfloored(
    a: StateModel,
    b: StateModel,
    ri: int,
    view: ViewModel,
    seed: Seq<u8>,
    n: int,
)
    requires
        a.regions == b.regions,
    ensures
        a.unfloored(ri, view, seed, n) == b.unfloored(ri, view, seed, n),
    decreases n,
{
    if n > 0 {
        lemma_same_unfloored(a, b, ri, view, seed, n - 1);
        assert forall|op_id: u64| #[trigger] a.op_seen_elsewhere(ri, op_id, view)
            == b.op_seen_elsewhere(ri, op_id, view) by {
            assert forall|rj: int| #[trigger] a.op_seen_in(rj, op_id, view) == b.op_seen_in(
                rj,
                op_id,
                view,
            ) by {}
            if a.op_seen_elsewhere(ri, op_id, view) {
                let rj = choose|rj: int|
                    0 <= rj < a.regions.len() && rj != ri && #[trigger] a.op_seen_in(
                        rj,
                        op_id,
                        view,
                    );
                assert(b.op_seen_in(rj, op_id, view));
            }
            if b.op_seen_elsewhere(ri, op_id, view) {
                let rj = choose|rj: int|
                    0 <= rj < b.regions.len() && rj != ri && #[trigger] b.op_seen_in(
                        rj,
                        op_id,
                        view,
                    );
                assert(a.op_seen_in(rj, op_id, view));
            }
        }
        assert(a.floored(ri, view, seed[n - 1] as int) == b.floored(ri, view, seed[n - 1] as int));
    }
}

proof fn lemma_same_candidates(
    a: StateModel,
    b: StateModel,
    t: ThreadsModel,
    u: ThreadsModel,
    covered: Seq<usize>,
    k: int,
    view: ViewModel,
    order: Order,
    floor: bool,
)
    requires
        same_reader(t, u),
        same_lanes(a, b, covered, k, floor),
        0 <= k < covered.len(),
    ensures
        b.candidates(u, covered[k] as int, view, order, floor) == a.candidates(
            t,
            covered[k] as int,
            view,
            order,
            floor,
        ),
{
    let ri = covered[k] as int;
    let r = a.regions[ri];
    assert(b.regions[covered[k] as int] == r);
    lemma_same_readable(r, t, u, view.causality, order, r.stores.len() as int);
    if floor {
        let base = r.readable(t, view.causality, order, r.stores.len() as int);
        lemma_same_unfloored(a, b, ri, view, base, base.len() as int);
    }
}

proof fn lemma_same_completes(
    a: StateModel,
    b: StateModel,
    t: ThreadsModel,
    u: ThreadsModel,
    covered: Seq<usize>,
    k: int,
    order: Order,
    floor: bool,
    resolved: Seq<(u64, bool)>,
    view: ViewModel,
)
    requires
        same_reader(t, u),
        same_lanes(a, b, covered, k, floor),
        0 <= k,
    ensures
        b.completes(u, covered, k, order, floor, resolved, view) == a.completes(
            t,
            covered,
            k,
            order,
            floor,
            resolved,
            view,
        ),
    decreases covered.len() - k, 1int, 0int,
{
    if k < covered.len() {
        lemma_same_candidates(a, b, t, u, covered, k, view, order, floor);
        lemma_same_some_completes(
            a,
            b,
            t,
            u,
            covered,
            k,
            order,
            floor,
            resolved,
            view,
            a.candidates(t, covered[k] as int, view, order, floor),
            0,
        );
    }
}

proof fn lemma_same_some_completes(
    a: StateModel,
    b: StateModel,
    t: ThreadsModel,
    u: ThreadsModel,
    covered: Seq<usize>,
    k: int,
    order: Order,
    floor: bool,
    resolved: Seq<(u64, bool)>,
    view: ViewModel,
    seed: Seq<u8>,
    i: int,
)
    requires
        same_reader(t, u),
        same_lanes(a, b, covered, k, floor),
        0 <= k < covered.len(),
        0 <= i,
    ensures
        b.some_completes(u, covered, k, order, floor, resolved, view, seed, i)
            == a.some_completes(t, covered, k, order, floor, resolved, view, seed, i),
    decreases covered.len() - k, 0int, seed.len() - i,
{
    if i < seed.len() {
        let rj = covered[k];
        let r = a.regions[rj as int];
        assert(b.regions[covered[k] as int] == r);
        if let Some(after) = r.resolve(seed[i] as int, resolved) {
            lemma_same_completes(
                a,
                b,
                t,
                u,
                covered,
                k + 1,
                order,
                floor,
                after,
                view.extended(r, rj, seed[i] as usize, order),
            );
        }
        lemma_same_some_completes(
            a,
            b,
            t,
            u,
            covered,
            k,
            order,
            floor,
            resolved,
            view,
            seed,
            i + 1,
        );
    }
}

proof fn lemma_same_consistent(
    a: StateModel,
    b: StateModel,
    t: ThreadsModel,
    u: ThreadsModel,
    covered: Seq<usize>,
    k: int,
    order: Order,
    floor: bool,
    resolved: Seq<(u64, bool)>,
    seed: Seq<u8>,
    n: int,
)
    requires
        same_reader(t, u),
        same_lanes(a, b, covered, k, floor),
        0 <= k < covered.len(),
    ensures
        b.consistent_upto(u, covered, k, order, floor, resolved, seed, n) == a.consistent_upto(
            t,
            covered,
            k,
            order,
            floor,
            resolved,
            seed,
            n,
        ),
    decreases n,
{
    if n > 0 {
        lemma_same_consistent(a, b, t, u, covered, k, order, floor, resolved, seed, n - 1);
        let ri = covered[k];
        let r = a.regions[ri as int];
        let ci = seed[n - 1];
        assert(b.regions[covered[k] as int] == r);
        if let Some(after) = r.resolve(ci as int, resolved) {
            lemma_same_completes(
                a,
                b,
                t,
                u,
                covered,
                k + 1,
                order,
                floor,
                after,
                ViewModel::at_entry(t).extended(r, ri, ci as usize, order),
            );
        }
    }
}

/// A load gives the same from both: the same value and the same branches, or the
/// same fault.
proof fn lemma_same_load(
    a: StateModel,
    b: StateModel,
    path: PathModel,
    t: ThreadsModel,
    u: ThreadsModel,
    covered: Seq<usize>,
    k: int,
    order: Order,
    floor: bool,
    resolved: Seq<(u64, bool)>,
    value: u128,
)
    requires
        in_order(a, covered),
        same_reader(t, u),
        same_lanes(a, b, covered, k, floor),
        0 <= k <= covered.len(),
    ensures
        match (
            a.composed(path, t, covered, k, order, floor, resolved, value),
            b.composed(path, u, covered, k, order, floor, resolved, value),
        ) {
            (Ok(x), Ok(y)) => y.value == x.value && y.path == x.path,
            (Err(f), Err(g)) => f == g,
            _ => false,
        },
    decreases covered.len() - k,
{
    if k < covered.len() {
        let ri = covered[k] as int;
        let r = a.regions[ri];
        assert(b.regions[covered[k] as int] == r);
        let seed = a.candidates(t, ri, ViewModel::at_entry(t), order, floor);
        lemma_same_candidates(a, b, t, u, covered, k, ViewModel::at_entry(t), order, floor);
        lemma_same_consistent(
            a,
            b,
            t,
            u,
            covered,
            k,
            order,
            floor,
            resolved,
            seed,
            seed.len() as int,
        );
        assert(a.offered(t, covered, k, order, floor, resolved) == b.offered(
            u,
            covered,
            k,
            order,
            floor,
            resolved,
        ));
        let pushed = if path.traversed() {
            match a.offered(t, covered, k, order, floor, resolved) {
                Ok(seed) => path.with_load(seed),
                Err(f) => Err(f),
            }
        } else {
            Ok(path)
        };
        if let Ok(p1) = pushed {
            if let Ok((p2, index)) = p1.load_branch() {
                let fixed = if covered.len() > 1 {
                    r.resolve(index, resolved)
                } else {
                    Some(resolved)
                };
                if index < r.stores.len() && fixed is Some {
                    let na = a.with_region(ri, r.read(t, index));
                    let nb = b.with_region(ri, r.read(u, index));
                    assert(r.read(u, index) == r.read(t, index));
                    let t1 = t.synced(r.stores[index].sync.happens_before, order);
                    let u1 = u.synced(r.stores[index].sync.happens_before, order);
                    assert forall|i: int| k + 1 <= i < covered.len() implies nb.regions[(
                    #[trigger] covered[i]) as int] == na.regions[covered[i] as int] by {
                        assert(covered[k] < covered[i]);
                    }
                    lemma_same_load(
                        na,
                        nb,
                        p2,
                        t1,
                        u1,
                        covered,
                        k + 1,
                        order,
                        floor,
                        fixed->Some_0,
                        value | (r.stores[index].value & r.mask),
                    );
                }
            }
        }
    }
}

proof fn lemma_same_rmw_read(
    a: StateModel,
    b: StateModel,
    path: PathModel,
    t: ThreadsModel,
    u: ThreadsModel,
    covered: Seq<usize>,
    k: int,
    reads: Seq<(usize, usize)>,
    value: u128,
)
    requires
        in_order(a, covered),
        same_reader(t, u),
        same_lanes(a, b, covered, k, false),
        0 <= k <= covered.len(),
    ensures
        match (
            a.rmw_read(path, t, covered, k, reads, value),
            b.rmw_read(path, u, covered, k, reads, value),
        ) {
            (Ok(x), Ok(y)) => y.value == x.value && y.path == x.path && y.reads == x.reads,
            (Err(f), Err(g)) => f == g,
            _ => false,
        },
    decreases covered.len() - k,
{
    if k < covered.len() {
        let ri = covered[k];
        let r = a.regions[ri as int];
        assert(b.regions[covered[k] as int] == r);
        let pushed = if path.traversed() {
            path.with_load(r.maximal(r.stores.len() as int))
        } else {
            Ok(path)
        };
        if let Ok(p1) = pushed {
            if let Ok((p2, index)) = p1.load_branch() {
                if index < r.stores.len() {
                    let na = a.with_region(ri as int, r.read(t, index));
                    let nb = b.with_region(ri as int, r.read(u, index));
                    assert(r.read(u, index) == r.read(t, index));
                    assert forall|i: int| k + 1 <= i < covered.len() implies nb.regions[(
                    #[trigger] covered[i]) as int] == na.regions[covered[i] as int] by {
                        assert(covered[k] < covered[i]);
                    }
                    lemma_same_rmw_read(
                        na,
                        nb,
                        p2,
                        t,
                        u,
                        covered,
                        k + 1,
                        reads.push((ri, index as usize)),
                        value | (r.stores[index].value & r.mask),
                    );
                }
            }
        }
    }
}

// ----- the laws -----
/// The object that the operation is on, and what it does to it.
pub open spec fn action_of(deed: Deed) -> Option<(usize, Action)> {
    match deed {
        Deed::Load { object, mask, .. } => Some((object, Action::Load { mask })),
        Deed::Store { object, mask, .. } => Some((object, Action::Store { mask })),
        Deed::Rmw { object, read, write, .. } => Some((object, Action::Rmw { read, write })),
        _ => None,
    }
}

/// The cell is cut along what the action touches, as it is once the action was
/// announced.
pub open spec fn announced_to(cell: StateModel, action: Action) -> bool {
    cell.prepared(action) == cell
}

/// The execution with thread `a` active, on the path `path`.
pub open spec fn with_turn(e: ExecModel, a: int, path: PathModel) -> ExecModel {
    ExecModel { path, threads: ThreadsModel { active: Some(a as usize), ..e.threads }, ..e }
}

/// Announcing a second action keeps the cell cut along the first.
pub proof fn announcements_add_up(cell: StateModel, a: Action, b: Action)
    requires
        cell.wf(),
        a is Load || a is Store || a is Rmw,
        b is Load || b is Store || b is Rmw,
    ensures
        announced_to(cell.prepared(a).prepared(b), a),
        announced_to(cell.prepared(a).prepared(b), b),
{
    let first = cell.prepared(a);
    lemma_prepared_cuts(cell, a);
    lemma_prepared_cuts(first, b);
    lemma_prepared_keeps(first, b, a.reads());
    lemma_prepared_keeps(first, b, a.writes());
    let both = first.prepared(b);
    lemma_cut_is_announced(both, a);
    lemma_cut_is_announced(both, b);
}

/// The masks that the action cuts the cell along.
spec fn cut_for(cell: StateModel, action: Action) -> bool {
    match action {
        Action::Opaque => true,
        Action::Load { mask } => cut_along(cell, mask),
        Action::Store { mask } => cut_along(cell, mask),
        Action::Rmw { read, write } => cut_along(cell, read) && cut_along(cell, write),
    }
}

proof fn lemma_cut_is_announced(cell: StateModel, action: Action)
    requires
        cut_for(cell, action),
    ensures
        announced_to(cell, action),
{
    match action {
        Action::Opaque => {},
        Action::Load { mask } => {
            lemma_partitioned_already(cell, mask);
        },
        Action::Store { mask } => {
            lemma_partitioned_already(cell, mask);
        },
        Action::Rmw { read, write } => {
            lemma_partitioned_already(cell, read);
            lemma_partitioned_already(cell, write);
        },
    }
}

proof fn lemma_prepared_cuts(cell: StateModel, action: Action)
    requires
        cell.wf(),
    ensures
        cell.prepared(action).wf(),
        cut_for(cell.prepared(action), action),
{
    match action {
        Action::Opaque => {},
        Action::Load { mask } => {
            lemma_cut_along(cell, mask);
        },
        Action::Store { mask } => {
            lemma_cut_along(cell, mask);
        },
        Action::Rmw { read, write } => {
            lemma_cut_along(cell, read);
            lemma_cut_along(cell.partitioned(read), write);
            lemma_still_cut(cell.partitioned(read), read, write);
        },
    }
}

proof fn lemma_prepared_keeps(cell: StateModel, action: Action, mask: u128)
    requires
        cell.wf(),
    ensures
        cut_along(cell, mask) ==> cut_along(cell.prepared(action), mask),
{
    if cut_along(cell, mask) {
        match action {
            Action::Opaque => {},
            Action::Load { mask: m } => {
                lemma_still_cut(cell, mask, m);
            },
            Action::Store { mask: m } => {
                lemma_still_cut(cell, mask, m);
            },
            Action::Rmw { read, write } => {
                lemma_cut_along(cell, read);
                lemma_still_cut(cell, mask, read);
                lemma_still_cut(cell.partitioned(read), mask, write);
            },
        }
    }
}

/// An operation is performed where it may be.
proof fn lemma_may_be_done(m: Moment, deed: Deed)
    requires
        did(m, deed) is Some,
    ensures
        m.0.running(m.1),
        action_of(deed) matches Some((object, _)) ==> m.0.is_cell(object as int) && m.0.cell(
            object as int,
        ).wf(),
{
    reveal(did);
    if let Some((object, _)) = action_of(deed) {
        assert(m.0.objects[object as int].wf());
    }
}

/// An operation leaves alone the bits that it does not touch: a region that it
/// neither reads nor writes stays as it is, and one that it does not write keeps
/// its stores. It changes no other object, and no other thread.
pub proof fn an_operation_leaves_the_rest_alone(m: Moment, deed: Deed)
    requires
        action_of(deed) is Some,
        did(m, deed) is Some,
        m.0.cell(action_of(deed)->Some_0.0 as int).regions.len() <= usize::MAX,
        announced_to(
            m.0.cell(action_of(deed)->Some_0.0 as int),
            action_of(deed)->Some_0.1,
        ),
    ensures
        ({
            let (object, action) = action_of(deed)->Some_0;
            let e = m.0;
            let n = did(m, deed)->Some_0.0;
            &&& n.is_cell(object as int)
            &&& all_left_alone(
                e.cell(object as int).regions,
                n.cell(object as int).regions,
                action.reads(),
                action.writes(),
            )
            &&& same_guard(e.cell(object as int), n.cell(object as int))
            &&& n.objects.len() == e.objects.len()
            &&& forall|o: int|
                0 <= o < e.objects.len() && o != object ==> #[trigger] n.objects[o] == e.objects[o]
            &&& n.threads.threads.len() == e.threads.threads.len()
            &&& forall|i: int|
                0 <= i < e.threads.threads.len() && i != e.threads.me()
                    ==> #[trigger] n.threads.threads[i] == e.threads.threads[i]
        }),
{
    reveal(did);
    let (e, c) = m;
    let t = e.threads.ticked();
    let (o, action) = action_of(deed)->Some_0;
    let object = o as int;
    let cell = e.cell(object);
    assert(e.objects[object].wf());
    lemma_prepared_cuts(cell, action);
    match deed {
        Deed::Load { mask, order, coherent, .. } => {
            lemma_load_leaves(e, object, mask, order, coherent);
            let s1 = cell.partitioned(mask).tracked_load(t)->Ok_0;
            let s2 = s1.scope_checked(mask, order.joins(), t.me())->Ok_0;
            lemma_composed_threads(
                s2,
                e.path,
                t,
                s2.covered(mask),
                0,
                order,
                coherent,
                Seq::empty(),
                0,
            );
        },
        Deed::Store { mask, value, order, .. } => {
            lemma_store_leaves(e, object, mask, value, order);
        },
        Deed::Rmw { read, write, success, failure, next, .. } => {
            let value = match next {
                Some(v) => v,
                None => 0,
            };
            lemma_rmw_leaves(e, object, read, write, success, failure, value);
            let half = e.rmw_begun(object, read, write, success, failure)->Ok_0;
            lemma_failed_threads(half.cell, t, half.reads, 0, failure);
            if next is Some {
                let sc = success == Order::SeqCst;
                let s = half.cell.tracked_store(t)->Ok_0.next_op();
                lemma_written_threads(
                    s,
                    if sc {
                        t.sc_advanced()
                    } else {
                        t
                    },
                    half.reads,
                    0,
                    half.value,
                    value,
                    write,
                    success,
                    if sc {
                        Some(t.sc_clock)
                    } else {
                        None
                    },
                    s.op_clock,
                );
            }
        },
        _ => {},
    }
}

/// A region under what the one reads is none that the other writes.
proof fn lemma_apart(r: RegionModel, read: u128, write: u128)
    requires
        !straddles(r, read),
        r.mask & read != 0,
        read & write == 0,
    ensures
        r.mask & write == 0,
{
    let m = r.mask;
    assert(m & !read == 0 && read & write == 0 ==> m & write == 0) by (bit_vector);
}

proof fn lemma_same_covered(a: StateModel, b: StateModel, mask: u128, n: int)
    requires
        b.regions.len() == a.regions.len(),
        0 <= n <= a.regions.len(),
        forall|i: int| 0 <= i < a.regions.len() ==> (#[trigger] b.regions[i]).mask
            == a.regions[i].mask,
    ensures
        b.covered_upto(mask, n) == a.covered_upto(mask, n),
    decreases n,
{
    if n > 0 {
        lemma_same_covered(a, b, mask, n - 1);
        assert(b.regions[n - 1].mask == a.regions[n - 1].mask);
    }
}

proof fn lemma_same_bits_of(
    a: StateModel,
    b: StateModel,
    covered: Seq<usize>,
    slots: Seq<int>,
    n: int,
)
    requires
        0 <= n <= covered.len() == slots.len(),
        forall|i: int|
            0 <= i < covered.len() ==> same_stores(
                a.regions[(#[trigger] covered[i]) as int],
                b.regions[covered[i] as int],
            ),
        forall|i: int|
            0 <= i < slots.len() ==> 0 <= #[trigger] slots[i] < a.regions[covered[i] as int].stores.len(),
    ensures
        bits_of(b, covered, slots, n) == bits_of(a, covered, slots, n),
    decreases n,
{
    if n > 0 {
        lemma_same_bits_of(a, b, covered, slots, n - 1);
        let x = a.regions[covered[n - 1] as int];
        let y = b.regions[covered[n - 1] as int];
        assert(same_stores(x, y));
        assert(0 <= slots[n - 1] < x.stores.len());
        assert(same_store(x.stores[slots[n - 1]], y.stores[slots[n - 1]]));
    }
}

/// Independent operations do not change what the other reads: where a load, or
/// the read half of a read-modify-write, does not conflict with an operation on
/// the same cell, the stores that it can read hold the same before and after
/// that operation, so that it gets the same value from the same stores.
pub proof fn an_independent_operation_keeps_what_is_read(
    m: Moment,
    deed: Deed,
    action: Action,
    slots: Seq<int>,
)
    requires
        action_of(deed) is Some,
        did(m, deed) is Some,
        action is Load || action is Rmw,
        ({
            let (object, other) = action_of(deed)->Some_0;
            let cell = m.0.cell(object as int);
            let covered = cell.covered(action.reads());
            &&& !action.conflicts(other)
            &&& cell.regions.len() <= usize::MAX
            &&& announced_to(cell, action)
            &&& announced_to(cell, other)
            &&& slots.len() == covered.len()
            &&& forall|i: int|
                0 <= i < slots.len() ==> 0 <= #[trigger] slots[i]
                    < cell.regions[covered[i] as int].stores.len()
        }),
    ensures
        ({
            let object = action_of(deed)->Some_0.0 as int;
            let cell = m.0.cell(object);
            let after = did(m, deed)->Some_0.0.cell(object);
            let covered = cell.covered(action.reads());
            &&& after.covered(action.reads()) == covered
            &&& bits_of(after, covered, slots, slots.len() as int) == bits_of(
                cell,
                covered,
                slots,
                slots.len() as int,
            )
        }),
{
    let (o, other) = action_of(deed)->Some_0;
    let object = o as int;
    let cell = m.0.cell(object);
    let after = did(m, deed)->Some_0.0.cell(object);
    let read = action.reads();
    let covered = cell.covered(read);
    lemma_may_be_done(m, deed);
    an_operation_leaves_the_rest_alone(m, deed);
    lemma_prepared_cuts(cell, action);
    assert(cut_along(cell, read));
    lemma_covered(cell, read, cell.regions.len() as int);
    assert forall|i: int| 0 <= i < cell.regions.len() implies (#[trigger] after.regions[i]).mask
        == cell.regions[i].mask by {
        assert(left_alone(cell.regions[i], after.regions[i], other.reads(), other.writes()));
    }
    lemma_same_covered(cell, after, read, cell.regions.len() as int);
    assert forall|i: int| 0 <= i < covered.len() implies same_stores(
        cell.regions[(#[trigger] covered[i]) as int],
        after.regions[covered[i] as int],
    ) by {
        let ri = covered[i] as int;
        assert(cell.regions[ri].mask & read != 0);
        assert(!straddles(cell.regions[ri], read));
        lemma_apart(cell.regions[ri], read, other.writes());
        assert(left_alone(cell.regions[ri], after.regions[ri], other.reads(), other.writes()));
    }
    lemma_same_bits_of(cell, after, covered, slots, slots.len() as int);
}

/// The operation is on another object, or touches other bits of this one.
pub open spec fn stays_off(e: ExecModel, deed: Deed, object: int, mask: u128) -> bool {
    action_of(deed) matches Some((other, action)) && e.cell(other as int).regions.len()
        <= usize::MAX && announced_to(e.cell(other as int), action) && (other != object || (
    mask & action.reads() == 0 && mask & action.writes() == 0))
}

/// What an operation that stays off leaves of the regions under `mask`.
proof fn lemma_stays_off(m: Moment, deed: Deed, object: int, mask: u128)
    requires
        did(m, deed) is Some,
        stays_off(m.0, deed, object, mask),
        m.0.is_cell(object),
        cut_along(m.0.cell(object), mask),
    ensures
        ({
            let cell = m.0.cell(object);
            let n = did(m, deed)->Some_0.0;
            let after = n.cell(object);
            &&& n.is_cell(object)
            &&& same_guard(cell, after)
            &&& action_of(deed)->Some_0.0 != object ==> after == cell
            &&& after.regions.len() == cell.regions.len()
            &&& forall|i: int|
                0 <= i < cell.regions.len() ==> {
                    &&& (#[trigger] after.regions[i]).mask == cell.regions[i].mask
                    &&& cell.regions[i].mask & mask != 0 ==> after.regions[i] == cell.regions[i]
                }
        }),
{
    let (other, action) = action_of(deed)->Some_0;
    let cell = m.0.cell(object);
    let n = did(m, deed)->Some_0.0;
    let after = n.cell(object);
    an_operation_leaves_the_rest_alone(m, deed);
    if other != object {
        assert(n.objects[object] == m.0.objects[object]);
    } else {
        assert forall|i: int| 0 <= i < cell.regions.len() implies {
            &&& (#[trigger] after.regions[i]).mask == cell.regions[i].mask
            &&& cell.regions[i].mask & mask != 0 ==> after.regions[i] == cell.regions[i]
        } by {
            let r = cell.regions[i];
            assert(left_alone(r, after.regions[i], action.reads(), action.writes()));
            assert(!straddles(r, mask));
            if r.mask & mask != 0 {
                lemma_apart(r, mask, action.reads());
                lemma_apart(r, mask, action.writes());
            }
        }
    }
}

/// Checking the scope gives the same of cells that agree under the mask.
proof fn lemma_same_scope(a: StateModel, b: StateModel, mask: u128, acquiring: bool, reader: int)
    requires
        b.regions.len() == a.regions.len(),
        forall|i: int|
            0 <= i < a.regions.len() ==> {
                &&& (#[trigger] b.regions[i]).mask == a.regions[i].mask
                &&& a.regions[i].mask & mask != 0 ==> b.regions[i] == a.regions[i]
            },
    ensures
        match (a.scope_checked(mask, acquiring, reader), b.scope_checked(mask, acquiring, reader)) {
            (Ok(x), Ok(y)) => {
                &&& x.regions.len() == a.regions.len() == y.regions.len()
                &&& a.regions == b.regions ==> x.regions == y.regions
                &&& forall|i: int|
                    0 <= i < a.regions.len() ==> {
                        &&& (#[trigger] y.regions[i]).mask == x.regions[i].mask
                            == a.regions[i].mask
                        &&& a.regions[i].mask & mask != 0 ==> y.regions[i] == x.regions[i]
                    }
            },
            (Err(f), Err(g)) => f == g,
            _ => false,
        },
{
    if exists|i: int|
        0 <= i < a.regions.len() && (#[trigger] a.regions[i]).mask & mask != 0
            && a.regions[i].unrouted(mask, reader) {
        let i = choose|i: int|
            0 <= i < a.regions.len() && (#[trigger] a.regions[i]).mask & mask != 0
                && a.regions[i].unrouted(mask, reader);
        assert(b.regions[i].mask & mask != 0 && b.regions[i].unrouted(mask, reader));
    }
    if exists|i: int|
        0 <= i < b.regions.len() && (#[trigger] b.regions[i]).mask & mask != 0
            && b.regions[i].unrouted(mask, reader) {
        let i = choose|i: int|
            0 <= i < b.regions.len() && (#[trigger] b.regions[i]).mask & mask != 0
                && b.regions[i].unrouted(mask, reader);
        assert(a.regions[i].mask & mask != 0 && a.regions[i].unrouted(mask, reader));
    }
    if let (Ok(x), Ok(y)) = (
        a.scope_checked(mask, acquiring, reader),
        b.scope_checked(mask, acquiring, reader),
    ) {
        if a.regions == b.regions {
            assert(x.regions =~= y.regions);
        }
    }
}

/// A load does not notice an operation of another thread on another object, nor,
/// unless it is one that looks at the whole cell, one on other bits of its own:
/// on the same path it gives the same value and leaves the same path behind, or
/// fails alike, whether that operation comes before it or not.
pub proof fn a_load_does_not_notice_what_stays_off(
    m: Moment,
    deed: Deed,
    a: int,
    path: PathModel,
    object: int,
    mask: u128,
    order: Order,
    coherent: bool,
)
    requires
        did(m, deed) is Some,
        0 <= a < m.0.threads.threads.len(),
        m.0.threads.me() != a,
        m.0.is_cell(object),
        m.0.cell(object).regions.len() <= usize::MAX,
        announced_to(m.0.cell(object), Action::Load { mask }),
        stays_off(m.0, deed, object, mask),
        coherent ==> action_of(deed)->Some_0.0 != object,
    ensures
        match (
            with_turn(m.0, a, path).loaded(object, mask, order, coherent),
            with_turn(did(m, deed)->Some_0.0, a, path).loaded(object, mask, order, coherent),
        ) {
            (Ok((x, v)), Ok((y, w))) => w == v && y.path == x.path,
            (Err(f), Err(g)) => f == g,
            _ => false,
        },
{
    let n = did(m, deed)->Some_0.0;
    let cell = m.0.cell(object);
    let after = n.cell(object);
    lemma_may_be_done(m, deed);
    assert(m.0.objects[object].wf());
    lemma_prepared_cuts(cell, Action::Load { mask });
    lemma_stays_off(m, deed, object, mask);
    an_operation_leaves_the_rest_alone(m, deed);
    let e1 = with_turn(m.0, a, path);
    let e2 = with_turn(n, a, path);
    assert(e2.threads.current() == e1.threads.current());
    assert(cut_along(after, mask)) by {
        assert forall|i: int| 0 <= i < after.regions.len() implies !straddles(
            #[trigger] after.regions[i],
            mask,
        ) by {
            assert(!straddles(cell.regions[i], mask));
        }
    }
    lemma_partitioned_already(cell, mask);
    lemma_partitioned_already(after, mask);
    if e1.threads.can_tick() {
        let t = e1.threads.ticked();
        let u = e2.threads.ticked();
        assert(same_reader(t, u));
        if let (Ok(s1), Ok(z1)) = (cell.tracked_load(t), after.tracked_load(u)) {
            lemma_same_scope(s1, z1, mask, order.joins(), a);
            if let (Ok(s2), Ok(z2)) = (
                s1.scope_checked(mask, order.joins(), a),
                z1.scope_checked(mask, order.joins(), a),
            ) {
                let len = s2.regions.len() as int;
                let covered = s2.covered(mask);
                lemma_same_covered(s2, z2, mask, len);
                lemma_covered(s2, mask, len);
                assert forall|i: int| 0 <= i < covered.len() implies z2.regions[(
                #[trigger] covered[i]) as int] == s2.regions[covered[i] as int] by {
                    let ri = covered[i] as int;
                    assert(s2.regions[ri].mask & mask != 0);
                    assert(z2.regions[ri].mask == s2.regions[ri].mask);
                }
                lemma_same_load(
                    s2,
                    z2,
                    path,
                    t,
                    u,
                    covered,
                    0,
                    order,
                    coherent,
                    Seq::empty(),
                    0,
                );
            }
        }
    }
}

/// The same of a read-modify-write, as far as no counter is at its end: it gets
/// the same value to work on.
pub proof fn a_rmw_does_not_notice_what_stays_off(
    m: Moment,
    deed: Deed,
    a: int,
    path: PathModel,
    object: int,
    read: u128,
    write: u128,
    success: Order,
    failure: Order,
)
    requires
        did(m, deed) is Some,
        0 <= a < m.0.threads.threads.len(),
        m.0.threads.me() != a,
        m.0.is_cell(object),
        m.0.cell(object).regions.len() <= usize::MAX,
        announced_to(m.0.cell(object), Action::Rmw { read, write }),
        stays_off(m.0, deed, object, read),
        with_turn(m.0, a, path).rmw_begun(object, read, write, success, failure) != Err::<
            ReadHalf,
            Fault,
        >(Fault::Exhausted),
        with_turn(did(m, deed)->Some_0.0, a, path).rmw_begun(
            object,
            read,
            write,
            success,
            failure,
        ) != Err::<ReadHalf, Fault>(Fault::Exhausted),
    ensures
        match (
            with_turn(m.0, a, path).rmw_begun(object, read, write, success, failure),
            with_turn(did(m, deed)->Some_0.0, a, path).rmw_begun(
                object,
                read,
                write,
                success,
                failure,
            ),
        ) {
            (Ok(x), Ok(y)) => y.value == x.value && y.path == x.path && y.reads == x.reads,
            (Err(f), Err(g)) => f == g,
            _ => false,
        },
{
    let n = did(m, deed)->Some_0.0;
    let cell = m.0.cell(object);
    let after = n.cell(object);
    lemma_may_be_done(m, deed);
    assert(m.0.objects[object].wf());
    lemma_prepared_cuts(cell, Action::Rmw { read, write });
    lemma_stays_off(m, deed, object, read);
    an_operation_leaves_the_rest_alone(m, deed);
    let e1 = with_turn(m.0, a, path);
    let e2 = with_turn(n, a, path);
    assert(e2.threads.current() == e1.threads.current());
    assert(cut_along(after, read) && cut_along(after, write)) by {
        assert forall|i: int| 0 <= i < after.regions.len() implies !straddles(
            #[trigger] after.regions[i],
            read,
        ) && !straddles(after.regions[i], write) by {
            assert(!straddles(cell.regions[i], read) && !straddles(cell.regions[i], write));
        }
    }
    lemma_partitioned_already(cell, read);
    lemma_partitioned_already(cell, write);
    lemma_partitioned_already(after, read);
    lemma_partitioned_already(after, write);
    let t = e1.threads.ticked();
    let u = e2.threads.ticked();
    let acquiring = success.joins() || failure.joins();
    assert(same_reader(t, u));
    if write & !read == 0 {
        if let (Ok(s1), Ok(z1)) = (cell.tracked_load(t), after.tracked_load(u)) {
            lemma_same_scope(s1, z1, read, acquiring, a);
            if let (Ok(s2), Ok(z2)) = (
                s1.scope_checked(read, acquiring, a),
                z1.scope_checked(read, acquiring, a),
            ) {
                let len = s2.regions.len() as int;
                let covered = s2.covered(read);
                lemma_same_covered(s2, z2, read, len);
                lemma_covered(s2, read, len);
                assert forall|i: int| 0 <= i < covered.len() implies z2.regions[(
                #[trigger] covered[i]) as int] == s2.regions[covered[i] as int] by {
                    let ri = covered[i] as int;
                    assert(s2.regions[ri].mask & read != 0);
                    assert(z2.regions[ri].mask == s2.regions[ri].mask);
                }
                lemma_same_rmw_read(s2, z2, path, t, u, covered, 0, Seq::empty(), 0);
            }
        }
    }
}

/// The bits that the operation writes, and what it writes there.
pub open spec fn written_by(deed: Deed) -> Option<(u128, u128)> {
    match deed {
        Deed::Store { mask, value, .. } => Some((mask, value)),
        Deed::Rmw { write, next: Some(value), .. } => Some((write, value)),
        _ => None,
    }
}

proof fn lemma_written_value(m: Moment, deed: Deed)
    requires
        written_by(deed) is Some,
        did(m, deed) is Some,
        m.0.cell(action_of(deed)->Some_0.0 as int).regions.len() <= usize::MAX,
        announced_to(
            m.0.cell(action_of(deed)->Some_0.0 as int),
            action_of(deed)->Some_0.1,
        ),
    ensures
        ({
            let object = action_of(deed)->Some_0.0 as int;
            let (mask, value) = written_by(deed)->Some_0;
            did(m, deed)->Some_0.0.cell(object).value() == (m.0.cell(object).value() & !mask) | (
            value & mask)
        }),
{
    reveal(did);
    let object = action_of(deed)->Some_0.0 as int;
    assert(m.0.objects[object].wf());
    match deed {
        Deed::Store { mask, value, order, .. } => {
            a_store_writes_its_bits_alone(m.0, object, mask, value, order);
        },
        Deed::Rmw { read, write, success, failure, next: Some(value), .. } => {
            a_rmw_writes_its_bits_alone(m.0, object, read, write, success, failure, value);
        },
        _ => {},
    }
}

/// Independent writes commute: two operations of different threads on one cell
/// that do not conflict leave the same newest value behind in either order.
pub proof fn independent_writes_commute(
    m: Moment,
    a: int,
    deed: Deed,
    b: int,
    other: Deed,
    p: PathModel,
    q: PathModel,
)
    requires
        written_by(deed) is Some,
        written_by(other) is Some,
        action_of(deed)->Some_0.0 == action_of(other)->Some_0.0,
        !action_of(deed)->Some_0.1.conflicts(action_of(other)->Some_0.1),
        a != b,
        ({
            let (e, c) = m;
            let object = action_of(deed)->Some_0.0 as int;
            let x = did((with_turn(e, a, e.path), c), deed)->Some_0;
            let y = did((with_turn(e, b, e.path), c), other)->Some_0;
            &&& e.cell(object).regions.len() <= usize::MAX
            &&& announced_to(e.cell(object), action_of(deed)->Some_0.1)
            &&& announced_to(e.cell(object), action_of(other)->Some_0.1)
            &&& did((with_turn(e, a, e.path), c), deed) is Some
            &&& did((with_turn(e, b, e.path), c), other) is Some
            &&& did((with_turn(x.0, b, p), x.1), other) is Some
            &&& did((with_turn(y.0, a, q), y.1), deed) is Some
        }),
    ensures
        ({
            let (e, c) = m;
            let object = action_of(deed)->Some_0.0 as int;
            let x = did((with_turn(e, a, e.path), c), deed)->Some_0;
            let y = did((with_turn(e, b, e.path), c), other)->Some_0;
            did((with_turn(x.0, b, p), x.1), other)->Some_0.0.cell(object).value() == did(
                (with_turn(y.0, a, q), y.1),
                deed,
            )->Some_0.0.cell(object).value()
        }),
{
    let (e, c) = m;
    let (o, act) = action_of(deed)->Some_0;
    let object = o as int;
    let act2 = action_of(other)->Some_0.1;
    let ma = (with_turn(e, a, e.path), c);
    let mb = (with_turn(e, b, e.path), c);
    let x = did(ma, deed)->Some_0;
    let y = did(mb, other)->Some_0;
    lemma_may_be_done(ma, deed);
    lemma_may_be_done(mb, other);
    an_operation_leaves_the_rest_alone(ma, deed);
    an_operation_leaves_the_rest_alone(mb, other);
    lemma_still_announced(e.cell(object), x.0.cell(object), act, act2);
    lemma_still_announced(e.cell(object), y.0.cell(object), act2, act);
    lemma_written_value(ma, deed);
    lemma_written_value(mb, other);
    lemma_written_value((with_turn(x.0, b, p), x.1), other);
    lemma_written_value((with_turn(y.0, a, q), y.1), deed);
    let v = e.cell(object).value();
    let (w1, x1) = written_by(deed)->Some_0;
    let (w2, x2) = written_by(other)->Some_0;
    assert(w1 & w2 == 0 ==> (((v & !w1) | (x1 & w1)) & !w2) | (x2 & w2) == (((v & !w2) | (x2 & w2))
        & !w1) | (x1 & w1)) by (bit_vector);
}

/// An operation keeps the cuts that another has announced.
proof fn lemma_still_announced(cell: StateModel, after: StateModel, done: Action, action: Action)
    requires
        cell.wf(),
        announced_to(cell, action),
        all_left_alone(cell.regions, after.regions, done.reads(), done.writes()),
    ensures
        announced_to(after, action),
{
    lemma_prepared_cuts(cell, action);
    assert forall|mask: u128| cut_along(cell, mask) implies #[trigger] cut_along(after, mask) by {
        assert forall|i: int| 0 <= i < after.regions.len() implies !straddles(
            #[trigger] after.regions[i],
            mask,
        ) by {
            assert(left_alone(cell.regions[i], after.regions[i], done.reads(), done.writes()));
            assert(!straddles(cell.regions[i], mask));
        }
    }
    lemma_cut_is_announced(after, action);
}

} // verus!
