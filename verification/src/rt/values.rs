//! What the operations on a cell do to its value.
use vstd::prelude::*;

use crate::rt::atomic::laws::{
    laid_over, lemma_overlaid_value, splitting_changes_no_value,
    store_writes_exactly_its_mask, top,
};
use crate::rt::atomic::region::{live, RegionModel};
use crate::rt::atomic::state::{
    lemma_covered, newest_bits, owned, partition_refines, straddles, StateModel,
};
use crate::rt::execution::ExecModel;
use crate::rt::order::Order;
use crate::rt::path::PathModel;
use crate::rt::thread::ThreadsModel;
use crate::rt::MAX_ATOMIC_HISTORY;

verus! {

/// The regions of the cell are cut along `mask`.
pub open spec fn cut_along(cell: StateModel, mask: u128) -> bool {
    forall|i: int| 0 <= i < cell.regions.len() ==> !straddles(#[trigger] cell.regions[i], mask)
}

pub proof fn lemma_cut_along(cell: StateModel, mask: u128)
    requires
        cell.wf(),
    ensures
        cell.partitioned(mask).wf(),
        cut_along(cell.partitioned(mask), mask),
{
    partition_refines(cell, mask, 0);
    assert forall|i: int| 0 <= i < cell.partitioned(mask).regions.len() implies !straddles(
        #[trigger] cell.partitioned(mask).regions[i],
        mask,
    ) by {
        partition_refines(cell, mask, i);
    }
}

/// A store of the bits under `mask` changes those bits of the cell to the
/// value's and no other, however the cell was cut before.
pub proof fn a_store_writes_its_bits_alone(
    e: ExecModel,
    object: int,
    mask: u128,
    value: u128,
    order: Order,
)
    requires
        e.is_cell(object),
        e.cell(object).wf(),
    ensures
        e.stored(object, mask, value, order) matches Ok(n) ==> n.cell(object).value() == (e.cell(
            object,
        ).value() & !mask) | (value & mask),
{
    let p = e.cell(object).partitioned(mask);
    lemma_cut_along(e.cell(object), mask);
    splitting_changes_no_value(e.cell(object), mask);
    if let Ok(n) = e.stored(object, mask, value, order) {
        let t = e.threads.ticked();
        let sc = order == Order::SeqCst;
        let t1 = if sc {
            t.sc_advanced()
        } else {
            t
        };
        let rank = if sc {
            Some(t.sc_clock)
        } else {
            None
        };
        let s = p.tracked_store(t)->Ok_0.next_op();
        let after = p.stored(t1, mask, value, order, rank, s.op_clock);
        store_writes_exactly_its_mask(p, t1, mask, value, order, rank, s.op_clock);
        assert(n.cell(object).regions =~= after.regions);
    }
}

/// The slots of the region are those that its count calls for.
spec fn shaped(r: RegionModel) -> bool {
    0 < r.cnt && r.stores.len() == live(r.cnt)
}

/// The regions own the same bits in both, and hold the same newest values.
spec fn same_values(a: Seq<RegionModel>, b: Seq<RegionModel>) -> bool {
    &&& a.len() == b.len()
    &&& forall|i: int|
        0 <= i < a.len() ==> {
            let r = #[trigger] b[i];
            &&& r.mask == a[i].mask
            &&& r.cnt == a[i].cnt
            &&& r.stores.len() == a[i].stores.len()
            &&& top(r) == top(a[i])
        }
}

/// The regions that the operation read and writes end up with `next`, and the
/// others as they were.
proof fn lemma_written(
    s: StateModel,
    t: ThreadsModel,
    reads: Seq<(usize, usize)>,
    j: int,
    current: u128,
    next: u128,
    write_mask: u128,
    success: Order,
    sc_rank: Option<u32>,
    op_id: u64,
)
    requires
        0 <= j <= reads.len(),
        forall|i: int| 0 <= i < s.regions.len() ==> shaped(#[trigger] s.regions[i]),
        forall|i: int| 0 <= i < reads.len() ==> (#[trigger] reads[i]).0 < s.regions.len(),
        forall|k: int, l: int|
            #![trigger reads[k], reads[l]]
            0 <= k < l < reads.len() ==> reads[k].0 != reads[l].0,
    ensures
        s.rmw_write(t, reads, j, current, next, write_mask, success, sc_rank, op_id) matches Ok(w)
            ==> {
            &&& w.cell.regions.len() == s.regions.len()
            &&& forall|i: int|
                0 <= i < s.regions.len() ==> {
                    let r = #[trigger] w.cell.regions[i];
                    let written = s.regions[i].mask & write_mask != 0 && exists|k: int|
                        j <= k < reads.len() && (#[trigger] reads[k]).0 == i;
                    &&& r.mask == s.regions[i].mask
                    &&& top(r) == if written {
                        next
                    } else {
                        top(s.regions[i])
                    }
                }
        },
    decreases reads.len() - j,
{
    if let Ok(w) = s.rmw_write(
        t,
        reads,
        j,
        current,
        next,
        write_mask,
        success,
        sc_rank,
        op_id,
    ) {
        if j < reads.len() {
            let ri = reads[j].0 as int;
            let index = reads[j].1 as int;
            let r = s.regions[ri];
            let t1 = t.synced(r.stores[index].sync.happens_before, success);
            assert(shaped(r));
            let n = if r.mask & write_mask != 0 {
                s.with_region(ri, r.rmw_committed(t1, index, next, success, sc_rank, op_id))
            } else {
                s.with_region(ri, r.preserving(t1, index, op_id, write_mask)).prior_reads_checked(
                    ri,
                    write_mask,
                    t.me(),
                )->Ok_0
            };
            let q = n.regions[ri];
            assert(r.mask & write_mask != 0 ==> q.newest() == r.cnt % MAX_ATOMIC_HISTORY as int);
            assert(shaped(q));
            assert forall|i: int| 0 <= i < n.regions.len() implies shaped(
                #[trigger] n.regions[i],
            ) by {
                if i != ri {
                    assert(n.regions[i] == s.regions[i]);
                }
            }
            lemma_written(
                n,
                t1,
                reads,
                j + 1,
                current,
                next,
                write_mask,
                success,
                sc_rank,
                op_id,
            );
            assert forall|i: int| 0 <= i < s.regions.len() implies {
                let after = #[trigger] w.cell.regions[i];
                let written = s.regions[i].mask & write_mask != 0 && exists|k: int|
                    j <= k < reads.len() && (#[trigger] reads[k]).0 == i;
                &&& after.mask == s.regions[i].mask
                &&& top(after) == if written {
                    next
                } else {
                    top(s.regions[i])
                }
            } by {
                let later = exists|k: int| j + 1 <= k < reads.len() && (#[trigger] reads[k]).0 == i;
                if i == ri {
                    assert(!later);
                    assert(reads[j].0 == i);
                } else {
                    assert(n.regions[i] == s.regions[i]);
                    if exists|k: int| j <= k < reads.len() && (#[trigger] reads[k]).0 == i {
                        let k = choose|k: int| j <= k < reads.len() && (#[trigger] reads[k]).0 == i;
                        assert(j + 1 <= k && reads[k].0 == i);
                    }
                }
            }
        }
    }
}

/// The regions that `reads` names come out of the write half as they went in,
/// where the operation does not write them.
proof fn lemma_carried(
    s: StateModel,
    t: ThreadsModel,
    reads: Seq<(usize, usize)>,
    j: int,
    current: u128,
    next: u128,
    write_mask: u128,
    success: Order,
    sc_rank: Option<u32>,
    op_id: u64,
    k: int,
)
    requires
        0 <= j <= k < reads.len(),
        forall|i: int| 0 <= i < reads.len() ==> (#[trigger] reads[i]).0 < s.regions.len(),
        s.rmw_write(t, reads, j, current, next, write_mask, success, sc_rank, op_id) is Ok,
        s.regions[reads[k].0 as int].mask & write_mask == 0,
    ensures
        ({
            let m = s.regions[reads[k].0 as int].mask;
            next & m == current & m
        }),
    decreases k - j,
{
    let ri = reads[j].0 as int;
    let index = reads[j].1 as int;
    let r = s.regions[ri];
    let t1 = t.synced(r.stores[index].sync.happens_before, success);
    if j < k {
        let n = if r.mask & write_mask != 0 {
            s.with_region(ri, r.rmw_committed(t1, index, next, success, sc_rank, op_id))
        } else {
            s.with_region(ri, r.preserving(t1, index, op_id, write_mask)).prior_reads_checked(
                ri,
                write_mask,
                t.me(),
            )->Ok_0
        };
        assert(reads[k].0 < s.regions.len());
        assert(n.regions.len() == s.regions.len());
        assert(n.regions[reads[k].0 as int].mask == s.regions[reads[k].0 as int].mask);
        lemma_carried(
            n,
            t1,
            reads,
            j + 1,
            current,
            next,
            write_mask,
            success,
            sc_rank,
            op_id,
            k,
        );
    }
}

/// The read half reads the regions that it covers, in order.
proof fn lemma_read_half(
    s: StateModel,
    path: PathModel,
    t: ThreadsModel,
    covered: Seq<usize>,
    k: int,
    reads: Seq<(usize, usize)>,
    value: u128,
)
    requires
        0 <= k <= covered.len(),
        reads.len() == k,
        forall|i: int| 0 <= i < k ==> (#[trigger] reads[i]).0 == covered[i],
        forall|i: int| 0 <= i < covered.len() ==> (#[trigger] covered[i]) < s.regions.len(),
        forall|i: int| 0 <= i < s.regions.len() ==> shaped(#[trigger] s.regions[i]),
    ensures
        s.rmw_read(path, t, covered, k, reads, value) matches Ok(half) ==> {
            &&& same_values(s.regions, half.cell.regions)
            &&& half.reads.len() == covered.len()
            &&& forall|i: int| 0 <= i < covered.len() ==> (#[trigger] half.reads[i]).0 == covered[i]
        },
    decreases covered.len() - k,
{
    if k < covered.len() {
        let ri = covered[k];
        let r = s.regions[ri as int];
        let pushed = if path.traversed() {
            path.with_load(r.maximal(r.stores.len() as int))
        } else {
            Ok(path)
        };
        if let Ok(p1) = pushed {
            if let Ok((p2, index)) = p1.load_branch() {
                if index < r.stores.len() {
                    let n = s.with_region(ri as int, r.read(t, index));
                    assert(shaped(r));
                    assert(same_values(s.regions, n.regions));
                    assert forall|i: int| 0 <= i < n.regions.len() implies shaped(
                        #[trigger] n.regions[i],
                    ) by {
                        assert(shaped(s.regions[i]));
                    }
                    lemma_read_half(
                        n,
                        p2,
                        t,
                        covered,
                        k + 1,
                        reads.push((ri, index as usize)),
                        value | (r.stores[index].value & r.mask),
                    );
                }
            }
        }
    }
}

proof fn lemma_is_covered(s: StateModel, mask: u128, n: int, i: int)
    requires
        0 <= i < n <= s.regions.len() <= usize::MAX,
        s.regions[i].mask & mask != 0,
    ensures
        s.covered_upto(mask, n).contains(i as usize),
    decreases n,
{
    if i == n - 1 {
        assert(s.covered_upto(mask, n).last() == i as usize);
    } else {
        lemma_is_covered(s, mask, n - 1, i);
        let before = s.covered_upto(mask, n - 1);
        let k = choose|k: int| 0 <= k < before.len() && before[k] == i as usize;
        assert(s.covered_upto(mask, n)[k] == i as usize);
    }
}

proof fn lemma_difference(
    regions: Seq<RegionModel>,
    read: u128,
    write: u128,
    a: u128,
    b: u128,
    n: int,
)
    requires
        0 <= n <= regions.len(),
        forall|i: int| 0 <= i < regions.len() ==> !straddles(#[trigger] regions[i], read),
        forall|i: int| 0 <= i < regions.len() ==> !straddles(#[trigger] regions[i], write),
        forall|i: int|
            0 <= i < regions.len() && (#[trigger] regions[i]).mask & read != 0 && regions[i].mask
                & write == 0 ==> a & regions[i].mask == b & regions[i].mask,
    ensures
        a & (read & !write & owned(regions, n)) == b & (read & !write & owned(regions, n)),
    decreases n,
{
    if n > 0 {
        lemma_difference(regions, read, write, a, b, n - 1);
        let m = regions[n - 1].mask;
        let o = owned(regions, n - 1);
        assert(!straddles(regions[n - 1], read) && !straddles(regions[n - 1], write));
        assert((m & read == 0 || m & !read == 0) && (m & write == 0 || m & !write == 0) && (m & read
            != 0 && m & write == 0 ==> a & m == b & m) && a & (read & !write & o) == b & (read
            & !write & o) ==> a & (read & !write & (o | m)) == b & (read & !write & (o | m)))
            by (bit_vector);
    } else {
        assert(a & (read & !write & 0u128) == b & (read & !write & 0u128)) by (bit_vector);
    }
}

proof fn lemma_shaped(p: StateModel, s: StateModel)
    requires
        p.wf(),
        same_values(p.regions, s.regions),
    ensures
        forall|i: int| 0 <= i < s.regions.len() ==> shaped(#[trigger] s.regions[i]),
{
    assert forall|i: int| 0 <= i < s.regions.len() implies shaped(#[trigger] s.regions[i]) by {
        assert(p.regions[i].wf());
    }
}

/// A read-modify-write that succeeds changes the bits under its write mask to
/// those of the value that it computed and no other, however the cell was cut
/// before. One that gives up changes none.
pub proof fn a_rmw_writes_its_bits_alone(
    e: ExecModel,
    object: int,
    read: u128,
    write: u128,
    success: Order,
    failure: Order,
    next: u128,
)
    requires
        e.is_cell(object),
        e.cell(object).wf(),
        e.cell(object).partitioned(read).partitioned(write).regions.len() <= usize::MAX,
    ensures
        e.rmw_begun(object, read, write, success, failure) matches Ok(half) ==> {
            let v = e.cell(object).value();
            &&& e.rmw_done(object, half, next, write, success) matches Ok(n) ==> n.cell(
                object,
            ).value() == (v & !write) | (next & write)
            &&& e.rmw_undone(object, half, failure).cell(object).value() == v
        },
{
    let first = e.cell(object).partitioned(read);
    let p = first.partitioned(write);
    lemma_cut_along(e.cell(object), read);
    lemma_cut_along(first, write);
    splitting_changes_no_value(e.cell(object), read);
    splitting_changes_no_value(first, write);
    if let Ok(half) = e.rmw_begun(object, read, write, success, failure) {
        let t = e.threads.ticked();
        let s1 = p.tracked_load(t)->Ok_0;
        let s2 = s1.scope_checked(read, success.joins() || failure.joins(), t.me())->Ok_0;
        let covered = s2.covered(read);
        assert(same_values(p.regions, s2.regions));
        lemma_covered(s2, read, s2.regions.len() as int);
        lemma_shaped(p, s2);
        lemma_read_half(s2, e.path, t, covered, 0, Seq::empty(), 0);
        assert(same_values(p.regions, half.cell.regions)) by {
            assert forall|i: int| 0 <= i < p.regions.len() implies top(
                #[trigger] half.cell.regions[i],
            ) == top(p.regions[i]) && half.cell.regions[i].mask == p.regions[i].mask
                && half.cell.regions[i].cnt == p.regions[i].cnt && half.cell.regions[i].stores.len()
                == p.regions[i].stores.len() by {
                assert(top(s2.regions[i]) == top(p.regions[i]));
            }
        }
        lemma_same_bits(p.regions, half.cell.regions, p.regions.len() as int);
        if let Ok(n) = e.rmw_done(object, half, next, write, success) {
            let w = half.cell.tracked_store(t)->Ok_0.next_op();
            lemma_shaped(p, w);
            assert forall|j: int| 0 <= j < half.reads.len() implies (#[trigger] half.reads[j]).0
                < w.regions.len() by {
                assert(half.reads[j].0 == covered[j]);
            }
            assert forall|k: int, l: int|
                #![trigger half.reads[k], half.reads[l]]
                0 <= k < l < half.reads.len() implies half.reads[k].0 != half.reads[l].0 by {
                assert(half.reads[k].0 == covered[k] && half.reads[l].0 == covered[l]);
            }
            let sc = success == Order::SeqCst;
            lemma_written(
                w,
                if sc {
                    t.sc_advanced()
                } else {
                    t
                },
                half.reads,
                0,
                half.value,
                next,
                write,
                success,
                if sc {
                    Some(t.sc_clock)
                } else {
                    None
                },
                w.op_clock,
            );
            let after = n.cell(object);
            assert forall|i: int| 0 <= i < p.regions.len() implies laid_over(
                p.regions[i],
                #[trigger] after.regions[i],
                write,
                next,
            ) by {
                let m = p.regions[i].mask;
                assert(w.regions[i].mask == m && top(w.regions[i]) == top(p.regions[i]));
                if m & write != 0 {
                    assert(write & !read == 0 && m & write != 0 ==> m & read != 0) by (bit_vector);
                    assert(s2.regions[i].mask == m);
                    lemma_is_covered(s2, read, s2.regions.len() as int, i);
                    let k = choose|k: int| 0 <= k < covered.len() && covered[k] == i as usize;
                    assert(half.reads[k].0 == covered[k]);
                    assert(half.reads[k].0 == i);
                }
            }
            lemma_overlaid_value(p, after, write, next);
        }
    }
}

/// Regions with the same newest values give the same value.
proof fn lemma_same_bits(a: Seq<RegionModel>, b: Seq<RegionModel>, n: int)
    requires
        same_values(a, b),
        0 <= n <= a.len(),
    ensures
        newest_bits(a, n) == newest_bits(b, n),
    decreases n,
{
    if n > 0 {
        lemma_same_bits(a, b, n - 1);
        assert(top(b[n - 1]) == top(a[n - 1]) && b[n - 1].mask == a[n - 1].mask);
    }
}

/// A preserving read-modify-write hands back what it carries as it read it: one
/// that would change a bit outside its write mask does not succeed.
pub proof fn a_preserving_rmw_keeps_what_it_carries(
    e: ExecModel,
    object: int,
    read: u128,
    write: u128,
    success: Order,
    failure: Order,
    next: u128,
)
    requires
        e.is_cell(object),
        e.cell(object).wf(),
        e.cell(object).partitioned(read).partitioned(write).regions.len() <= usize::MAX,
    ensures
        e.rmw_begun(object, read, write, success, failure) matches Ok(half) ==> (e.rmw_done(
            object,
            half,
            next,
            write,
            success,
        ) is Ok ==> next & (read & !write) == half.value & (read & !write)),
{
    let first = e.cell(object).partitioned(read);
    let p = first.partitioned(write);
    lemma_cut_along(e.cell(object), read);
    lemma_cut_along(first, write);
    lemma_still_cut(first, read, write);
    if let Ok(half) = e.rmw_begun(object, read, write, success, failure) {
        if e.rmw_done(object, half, next, write, success) is Ok {
            let t = e.threads.ticked();
            let s1 = p.tracked_load(t)->Ok_0;
            let s2 = s1.scope_checked(read, success.joins() || failure.joins(), t.me())->Ok_0;
            let covered = s2.covered(read);
            assert(same_values(p.regions, s1.regions));
            assert(same_values(p.regions, s2.regions));
            lemma_covered(s2, read, s2.regions.len() as int);
            lemma_shaped(p, s2);
            lemma_read_half(s2, e.path, t, covered, 0, Seq::empty(), 0);
            let w = half.cell.tracked_store(t)->Ok_0.next_op();
            assert forall|i: int|
                0 <= i < p.regions.len() && (#[trigger] p.regions[i]).mask & read != 0
                    && p.regions[i].mask & write == 0 implies next & p.regions[i].mask
                == half.value & p.regions[i].mask by {
                assert(s2.regions[i].mask == p.regions[i].mask);
                lemma_is_covered(s2, read, s2.regions.len() as int, i);
                let k = choose|k: int| 0 <= k < covered.len() && covered[k] == i as usize;
                assert(half.reads[k].0 == covered[k]);
                assert forall|j: int| 0 <= j < half.reads.len() implies (
                #[trigger] half.reads[j]).0 < w.regions.len() by {
                    assert(half.reads[j].0 == covered[j]);
                }
                assert(half.cell.regions[i].mask == p.regions[i].mask);
                let sc = success == Order::SeqCst;
                lemma_carried(
                    w,
                    if sc {
                        t.sc_advanced()
                    } else {
                        t
                    },
                    half.reads,
                    0,
                    half.value,
                    next,
                    write,
                    success,
                    if sc {
                        Some(t.sc_clock)
                    } else {
                        None
                    },
                    w.op_clock,
                    k,
                );
            }
            lemma_difference(p.regions, read, write, next, half.value, p.regions.len() as int);
            let all = read & !write;
            assert(all & 0xffff_ffff_ffff_ffff_ffff_ffff_ffff_ffffu128 == all) by (bit_vector);
        }
    }
}

/// Cutting along a second mask keeps the cuts along the first.
pub proof fn lemma_still_cut(cell: StateModel, first: u128, second: u128)
    requires
        cell.wf(),
        cut_along(cell, first),
    ensures
        cut_along(cell.partitioned(second), first),
{
    lemma_cut_finer(cell.regions, first, second, cell.regions.len() as int);
}

proof fn lemma_cut_finer(regions: Seq<RegionModel>, first: u128, second: u128, n: int)
    requires
        0 <= n <= regions.len(),
        forall|i: int| 0 <= i < regions.len() ==> !straddles(#[trigger] regions[i], first),
    ensures
        ({
            let c = crate::rt::atomic::state::cut_upto(regions, second, n);
            &&& regions.len() <= c.len()
            &&& forall|i: int| 0 <= i < c.len() ==> !straddles(#[trigger] c[i], first)
        }),
    decreases n,
{
    if n > 0 {
        lemma_cut_finer(regions, first, second, n - 1);
        let b = crate::rt::atomic::state::cut_upto(regions, second, n - 1);
        let c = crate::rt::atomic::state::cut_upto(regions, second, n);
        let m = regions[n - 1].mask;
        assert(!straddles(regions[n - 1], first));
        assert((m & first == 0 || m & !first == 0) ==> ((m & second) & first == 0 || (m & second)
            & !first == 0) && ((m & !second) & first == 0 || (m & !second) & !first == 0))
            by (bit_vector);
        assert forall|i: int| 0 <= i < c.len() implies !straddles(#[trigger] c[i], first) by {
            if i < b.len() && i != n - 1 {
                assert(c[i] == b[i]);
            }
        }
    }
}

} // verus!
