//! What synchronizes with what.
use vstd::prelude::*;

use crate::rt::atomic::coherence::a_new_cell_holds_its_value;
use crate::rt::atomic::laws::overwriting_gives_the_value_back;
use crate::rt::atomic::region::RegionModel;
use crate::rt::atomic::snapshot::{
    a_load_is_one_snapshot, bits_of, covered_regions_are_in_order, Reading,
};
use crate::rt::atomic::state::{lemma_covered, partition_refines, StateModel};
use crate::rt::atomic::store::{FirstSeen, Store};
use crate::rt::causality::{
    carries_on, fences_synchronize, last_store, later, lemma_composed, lemma_failed,
    lemma_write_half, nothing_is_forgotten, shaped,
};
use crate::rt::cells::publisher;
use crate::rt::claims::Frozen;
use crate::rt::execution::ExecModel;
use crate::rt::fault::Fault;
use crate::rt::history::{did, is_history, Deed, Moment};
use crate::rt::order::Order;
use crate::rt::path::PathModel;
use crate::rt::synchronize::Synchronize;
use crate::rt::table::in_range;
use crate::rt::thread::{State, Thread, ThreadsModel};
use crate::rt::vv::VersionVec;

verus! {

// ----- stores and loads -----
/// A store hands on what its thread released by its last fence, and with a
/// releasing order all that the thread has seen. Without one it hands on
/// nothing else, however much the thread has seen.
pub proof fn a_store_hands_on_what_was_released(
    e: ExecModel,
    c: Seq<Frozen>,
    object: int,
    mask: u128,
    value: u128,
    order: Order,
    i: int,
)
    requires
        e.running(c),
        e.is_cell(object),
    ensures
        e.stored(object, mask, value, order) matches Ok(n) ==> {
            let cell = n.cell(object);
            let new = last_store(cell.regions[i]);
            let th = e.threads.current();
            0 <= i < cell.regions.len() && cell.regions[i].mask & mask != 0 ==> {
                &&& new.value == value
                &&& new.creator == e.threads.me()
                &&& th.causality.below(new.happens_before)
                &&& new.first_seen.touched_by(e.threads.me()) || n.threads.version() == u16::MAX
                &&& th.released.below(new.sync.happens_before)
                &&& order.publishes() ==> th.causality.below(new.sync.happens_before)
                &&& !order.publishes() ==> new.sync.happens_before.below(th.released)
            }
        },
{
    broadcast use VersionVec::lemma_joined_at;
    broadcast use VersionVec::lemma_zero_at;
    broadcast use VersionVec::lemma_bumped_at;

    if let Ok(n) = e.stored(object, mask, value, order) {
        assert(e.objects[object].wf());
        partition_refines(e.cell(object), mask, i);
        let p = e.cell(object).partitioned(mask);
        let cell = n.cell(object);
        if 0 <= i < cell.regions.len() && cell.regions[i].mask & mask != 0 {
            let t = e.threads.ticked();
            let s = p.tracked_store(t)->Ok_0.next_op();
            assert(p.regions[i].wf());
            assert(s.regions == p.regions);
            let sc = order == Order::SeqCst;
            let t1 = if sc {
                t.sc_advanced()
            } else {
                t
            };
            let rank = if sc {
                Some(t.sc_clock)
            } else {
                None
            };
            let new = p.regions[i].new_store(
                t1,
                Synchronize::empty(),
                value,
                order,
                rank,
                s.op_clock,
            );
            assert(cell.regions[i] == p.regions[i].appended(new));
            assert(last_store(cell.regions[i]) == new);
            FirstSeen::lemma_never_at(t.me());
            FirstSeen::lemma_touched_at(FirstSeen::never(), t.me(), t.version(), t.me());
        }
    }
}

/// The load of the bits under `mask` of the cell returns `value` from the slots
/// `slots` of the regions that it covers.
pub open spec fn reads_from(cell: StateModel, mask: u128, slots: Seq<int>, value: u128) -> bool {
    let covered = cell.covered(mask);
    &&& slots.len() == covered.len()
    &&& forall|q: int|
        0 <= q < slots.len() ==> 0 <= #[trigger] slots[q]
            < cell.regions[covered[q] as int].stores.len()
    &&& value == bits_of(cell, covered, slots, covered.len() as int)
}

/// The release views of the slots are known to the thread.
pub open spec fn heard(cell: StateModel, mask: u128, slots: Seq<int>, th: Thread) -> bool {
    forall|q: int|
        0 <= q < slots.len() ==> cell.regions[cell.covered(mask)[q] as int].stores[
            #[trigger] slots[q]].sync.happens_before.below(th.causality)
}

proof fn lemma_slots(r: Reading, covered: Seq<usize>, k: int, order: Order, floor: bool)
    requires
        0 <= k <= covered.len(),
        forall|i: int, j: int|
            #![trigger covered[i], covered[j]]
            0 <= i < j < covered.len() ==> covered[i] < covered[j],
        forall|i: int| 0 <= i < covered.len() ==> (#[trigger] covered[i]) < r.cell.regions.len(),
    ensures
        r.slots(covered, k, order, floor).len() <= covered.len() - k,
        forall|q: int|
            0 <= q < r.slots(covered, k, order, floor).len() ==> 0 <= #[trigger] r.slots(
                covered,
                k,
                order,
                floor,
            )[q] < r.cell.regions[covered[k + q] as int].stores.len(),
    decreases covered.len() - k,
{
    if k < covered.len() {
        if let Some((index, rest)) = r.next(covered, k, order, floor) {
            lemma_slots(rest, covered, k + 1, order, floor);
            let slots = r.slots(covered, k, order, floor);
            let more = rest.slots(covered, k + 1, order, floor);
            assert forall|q: int| 0 <= q < slots.len() implies 0 <= #[trigger] slots[q]
                < r.cell.regions[covered[k + q] as int].stores.len() by {
                if q > 0 {
                    assert(slots[q] == more[q - 1]);
                    assert(covered[k] < covered[k + q]);
                    assert(rest.cell.regions[covered[k + 1 + (q - 1)] as int]
                        == r.cell.regions[covered[k + q] as int]);
                }
            }
        }
    }
}

proof fn lemma_same_covered(a: StateModel, b: StateModel, mask: u128, n: int)
    requires
        0 <= n <= a.regions.len() == b.regions.len(),
        forall|i: int| 0 <= i < n ==> (#[trigger] b.regions[i]).mask == a.regions[i].mask,
    ensures
        b.covered_upto(mask, n) == a.covered_upto(mask, n),
    decreases n,
{
    if n > 0 {
        lemma_same_covered(a, b, mask, n - 1);
        assert(b.regions[n - 1].mask == a.regions[n - 1].mask);
    }
}

proof fn lemma_same_bits(
    a: StateModel,
    b: StateModel,
    covered: Seq<usize>,
    slots: Seq<int>,
    n: int,
)
    requires
        0 <= n <= covered.len() == slots.len(),
        forall|i: int| 0 <= i < covered.len() ==> (#[trigger] covered[i]) < a.regions.len(),
        forall|i: int|
            0 <= i < a.regions.len() ==> (#[trigger] b.regions[i]).mask == a.regions[i].mask
                && b.regions[i].stores == a.regions[i].stores,
    ensures
        bits_of(b, covered, slots, n) == bits_of(a, covered, slots, n),
    decreases n,
{
    if n > 0 {
        lemma_same_bits(a, b, covered, slots, n - 1);
        assert(covered[n - 1] < a.regions.len());
        let ri = covered[n - 1] as int;
        assert(b.regions[ri].mask == a.regions[ri].mask);
    }
}

/// A load returns the bits of one store of each region that it covers, and
/// with an acquiring order its thread has then seen all that those stores hand
/// on. Without one it has seen nothing new.
pub proof fn an_acquiring_load_hears_what_it_reads(
    e: ExecModel,
    c: Seq<Frozen>,
    object: int,
    mask: u128,
    order: Order,
    coherent: bool,
)
    requires
        e.running(c),
        e.is_cell(object),
        e.cell(object).partitioned(mask).regions.len() <= usize::MAX,
    ensures
        e.loaded(object, mask, order, coherent) matches Ok((n, value)) ==> {
            let cell = e.cell(object).partitioned(mask);
            &&& exists|slots: Seq<int>| #[trigger]
                reads_from(cell, mask, slots, value) && (order.joins() ==> heard(
                    cell,
                    mask,
                    slots,
                    n.threads.current(),
                ))
            &&& n.threads.me() == e.threads.me()
            &&& !order.joins() ==> n.threads == e.threads.ticked()
        },
{
    broadcast use VersionVec::lemma_bumped_at;

    if let Ok((n, value)) = e.loaded(object, mask, order, coherent) {
        let t = e.threads.ticked();
        assert(e.objects[object].wf());
        partition_refines(e.cell(object), mask, 0);
        let cell = e.cell(object).partitioned(mask);
        let s1 = cell.tracked_load(t)->Ok_0;
        let s2 = s1.scope_checked(mask, order.joins(), t.me())->Ok_0;
        let covered = s2.covered(mask);
        assert forall|i: int| 0 <= i < cell.regions.len() implies (#[trigger] s2.regions[i]).mask
            == cell.regions[i].mask && s2.regions[i].stores == cell.regions[i].stores by {}
        lemma_same_covered(cell, s2, mask, cell.regions.len() as int);
        lemma_covered(s2, mask, s2.regions.len() as int);
        covered_regions_are_in_order(s2, mask);
        let r = Reading { cell: s2, path: e.path, threads: t, resolved: Seq::empty() };
        let slots = r.slots(covered, 0, order, coherent);
        lemma_composed(r, covered, 0, order, coherent, 0);
        lemma_slots(r, covered, 0, order, coherent);
        a_load_is_one_snapshot(s2, e.path, t, covered, order, coherent, 0, 0, 0, 0);
        lemma_same_bits(cell, s2, covered, slots, covered.len() as int);
        assert forall|q: int| 0 <= q < slots.len() implies 0 <= #[trigger] slots[q]
            < cell.regions[covered[q] as int].stores.len() by {
            assert(covered[0 + q] == covered[q]);
            assert(covered[q] < cell.regions.len());
            assert(s2.regions[covered[q] as int].stores == cell.regions[covered[q] as int].stores);
        }
        assert(reads_from(cell, mask, slots, value));
        if order.joins() {
            assert forall|q: int| 0 <= q < slots.len() implies cell.regions[cell.covered(
                mask,
            )[q] as int].stores[#[trigger] slots[q]].sync.happens_before.below(
                n.threads.current().causality,
            ) by {
                assert(covered[0 + q] == covered[q]);
                assert(covered[q] < cell.regions.len());
                assert(s2.regions[covered[q] as int].stores
                    == cell.regions[covered[q] as int].stores);
            }
        } else {
            lemma_composed_still(r, covered, 0, order, coherent, 0);
        }
    }
}

proof fn lemma_composed_still(
    r: Reading,
    covered: Seq<usize>,
    k: int,
    order: Order,
    floor: bool,
    value: u128,
)
    requires
        0 <= k <= covered.len(),
        !order.joins(),
    ensures
        r.cell.composed(
            r.path,
            r.threads,
            covered,
            k,
            order,
            floor,
            r.resolved,
            value,
        ) matches Ok(c) ==> c.threads == r.threads,
    decreases covered.len() - k,
{
    if k < covered.len() {
        if let Some((index, rest)) = r.next(covered, k, order, floor) {
            let region = r.cell.regions[covered[k] as int];
            lemma_composed_still(
                rest,
                covered,
                k + 1,
                order,
                floor,
                value | (region.stores[index].value & region.mask),
            );
        }
    }
}

// ----- release sequences -----
/// A read-modify-write goes on with the release sequence of the store that it
/// reads, whatever its ordering: what that store hands on, its own hands on
/// too, so that a thread which reads the new store with an acquiring order has
/// seen all that the writer of the first one released. It also hands on what
/// its own thread released by a fence, with a releasing order all that the
/// thread has seen, and without one nothing else.
pub proof fn a_release_sequence_goes_on(
    r: RegionModel,
    t: ThreadsModel,
    index: int,
    next: u128,
    success: Order,
    sc_rank: Option<u32>,
    op_id: u64,
    reader: ThreadsModel,
    acquire: Order,
)
    requires
        r.wf(),
        0 <= index < r.stores.len(),
        reader.running(),
        acquire.joins(),
    ensures
        ({
            let read = r.stores[index];
            let new = last_store(r.rmw_committed(t, index, next, success, sc_rank, op_id));
            let heard = reader.synced(new.sync.happens_before, acquire).current().causality;
            &&& read.sync.happens_before.below(new.sync.happens_before)
            &&& t.current().released.below(new.sync.happens_before)
            &&& success.publishes() ==> t.current().causality.below(new.sync.happens_before)
            &&& !success.publishes() ==> new.sync.happens_before.below(
                read.sync.happens_before.joined(t.current().released),
            )
            &&& read.sync.happens_before.below(heard)
            &&& new.sync.happens_before.below(heard)
        }),
{
    broadcast use VersionVec::lemma_joined_at;

    let read = r.stores[index];
    let new = Store {
        rmw_read: Some(read.as_read()),
        ..r.new_store(t, read.sync, next, success, sc_rank, op_id)
    };
    assert(last_store(r.rmw_committed(t, index, next, success, sc_rank, op_id)) == new);
}

/// The read half of a read-modify-write reads one live slot of each region that
/// it covers, and changes neither what those hold nor what they hand on.
proof fn lemma_read_half(
    first: StateModel,
    s: StateModel,
    path: PathModel,
    t: ThreadsModel,
    covered: Seq<usize>,
    k: int,
    reads: Seq<(usize, usize)>,
    value: u128,
)
    requires
        0 <= k <= covered.len(),
        reads.len() == k,
        forall|i: int| 0 <= i < covered.len() ==> (#[trigger] covered[i]) < s.regions.len(),
        same_contents(first, s),
        forall|i: int|
            0 <= i < k ==> (#[trigger] reads[i]).0 == covered[i] && reads[i].1
                < first.regions[covered[i] as int].stores.len(),
        value == bits_of(first, covered, slots_of(reads), k),
    ensures
        s.rmw_read(path, t, covered, k, reads, value) matches Ok(half) ==> {
            &&& same_contents(first, half.cell)
            &&& half.reads.len() == covered.len()
            &&& forall|i: int|
                0 <= i < covered.len() ==> (#[trigger] half.reads[i]).0 == covered[i]
                    && half.reads[i].1 < first.regions[covered[i] as int].stores.len()
            &&& half.value == bits_of(
                first,
                covered,
                slots_of(half.reads),
                covered.len() as int,
            )
        },
    decreases covered.len() - k,
{
    if k < covered.len() {
        let ri = covered[k];
        let r = s.regions[ri as int];
        let pushed = if path.traversed() {
            path.with_load(r.maximal(r.stores.len() as int))
        } else {
            Ok(path)
        };
        if let Ok(p1) = pushed {
            if let Ok((p2, index)) = p1.load_branch() {
                if index < r.stores.len() {
                    let n = s.with_region(ri as int, r.read(t, index));
                    let more = reads.push((ri, index as usize));
                    assert(same_region(first.regions[ri as int], r));
                    assert(same_contents(first, n)) by {
                        assert forall|i: int| 0 <= i < first.regions.len() implies same_region(
                            first.regions[i],
                            #[trigger] n.regions[i],
                        ) by {
                            assert(same_region(first.regions[i], s.regions[i]));
                        }
                    }
                    lemma_bits_prefix(first, covered, slots_of(reads), slots_of(more), k);
                    assert(same_store(
                        first.regions[ri as int].stores[index],
                        r.stores[index],
                    ));
                    lemma_read_half(
                        first,
                        n,
                        p2,
                        t,
                        covered,
                        k + 1,
                        more,
                        value | (r.stores[index].value & r.mask),
                    );
                }
            }
        }
    }
}

/// The slots that were read.
pub open spec fn slots_of(reads: Seq<(usize, usize)>) -> Seq<int> {
    Seq::new(reads.len(), |i: int| reads[i].1 as int)
}

spec fn same_store(a: Store, b: Store) -> bool {
    b.value == a.value && b.sync == a.sync && b.id == a.id && b.creator == a.creator
        && b.happens_before == a.happens_before
}

spec fn same_region(a: RegionModel, b: RegionModel) -> bool {
    &&& b.mask == a.mask
    &&& b.cnt == a.cnt
    &&& b.stores.len() == a.stores.len()
    &&& forall|k: int| 0 <= k < a.stores.len() ==> same_store(a.stores[k], #[trigger] b.stores[k])
}

/// The stores of both cells hold the same and hand on the same.
spec fn same_contents(a: StateModel, b: StateModel) -> bool {
    &&& b.regions.len() == a.regions.len()
    &&& forall|i: int|
        0 <= i < a.regions.len() ==> same_region(a.regions[i], #[trigger] b.regions[i])
}

proof fn lemma_bits_prefix(
    cell: StateModel,
    covered: Seq<usize>,
    a: Seq<int>,
    b: Seq<int>,
    n: int,
)
    requires
        0 <= n <= a.len(),
        n <= b.len(),
        forall|i: int| 0 <= i < n ==> #[trigger] a[i] == b[i],
    ensures
        bits_of(cell, covered, a, n) == bits_of(cell, covered, b, n),
    decreases n,
{
    if n > 0 {
        lemma_bits_prefix(cell, covered, a, b, n - 1);
        assert(a[n - 1] == b[n - 1]);
    }
}

/// A whole read-modify-write. The value that it starts from is made of one
/// store of each region that it covers. Where it writes, its store comes after
/// the one that it read, names it, holds the new value, and goes on with its
/// release sequence; with an acquiring order its thread has seen all that the
/// stores which it read hand on. One that gives up is a load of those stores.
pub proof fn a_rmw_goes_on_from_what_it_reads(
    e: ExecModel,
    c: Seq<Frozen>,
    object: int,
    read: u128,
    write: u128,
    success: Order,
    failure: Order,
    next: u128,
    k: int,
)
    requires
        e.running(c),
        e.is_cell(object),
        e.cell(object).partitioned(read).partitioned(write).regions.len() <= usize::MAX,
    ensures
        e.rmw_begun(object, read, write, success, failure) matches Ok(half) ==> {
            let cell = e.cell(object).partitioned(read).partitioned(write);
            let covered = cell.covered(read);
            let (ri, index) = half.reads[k];
            let r = cell.regions[ri as int];
            let view = r.stores[index as int].sync.happens_before;
            let undone = e.rmw_undone(object, half, failure);
            &&& reads_from(cell, read, slots_of(half.reads), half.value)
            &&& 0 <= k < half.reads.len() ==> {
                &&& ri == covered[k]
                &&& failure.joins() ==> view.below(undone.threads.current().causality)
                &&& e.rmw_done(object, half, next, write, success) matches Ok(n) ==> {
                    let new = last_store(n.cell(object).regions[ri as int]);
                    let th = e.threads.current();
                    &&& success.joins() ==> view.below(n.threads.current().causality)
                    &&& r.mask & write != 0 ==> {
                        &&& new.value == next
                        &&& new.creator == e.threads.me()
                        &&& new.rmw_read matches Some(from) && from.read_id
                            == r.stores[index as int].id
                        &&& success == Order::SeqCst ==> (new.sc_rank matches Some(rank)
                            && e.threads.sc_clock <= rank < n.threads.sc_clock)
                        &&& success != Order::SeqCst ==> new.sc_rank is None
                        &&& view.below(new.sync.happens_before)
                        &&& th.released.below(new.sync.happens_before)
                        &&& success.publishes() ==> th.causality.below(new.sync.happens_before)
                    }
                }
            }
        },
{
    broadcast use VersionVec::lemma_bumped_at;

    if let Ok(half) = e.rmw_begun(object, read, write, success, failure) {
        let t = e.threads.ticked();
        assert(e.objects[object].wf());
        let first = e.cell(object).partitioned(read);
        let cell = first.partitioned(write);
        partition_refines(e.cell(object), read, 0);
        partition_refines(first, write, 0);
        let s1 = cell.tracked_load(t)->Ok_0;
        let s2 = s1.scope_checked(read, success.joins() || failure.joins(), t.me())->Ok_0;
        let covered = s2.covered(read);
        assert forall|i: int| 0 <= i < cell.regions.len() implies (#[trigger] s2.regions[i]).mask
            == cell.regions[i].mask && same_region(cell.regions[i], s2.regions[i]) by {}
        lemma_same_covered(cell, s2, read, cell.regions.len() as int);
        lemma_covered(s2, read, s2.regions.len() as int);
        lemma_read_half(cell, s2, e.path, t, covered, 0, Seq::empty(), 0);
        assert forall|q: int| 0 <= q < half.reads.len() implies 0 <= #[trigger] slots_of(
            half.reads,
        )[q] < cell.regions[covered[q] as int].stores.len() by {
            assert(half.reads[q].0 == covered[q]);
        }
        assert(reads_from(cell, read, slots_of(half.reads), half.value));
        assert forall|i: int| 0 <= i < half.cell.regions.len() implies shaped(
            #[trigger] half.cell.regions[i],
        ) by {
            assert(cell.regions[i].wf());
            assert(same_region(cell.regions[i], half.cell.regions[i]));
        }
        assert forall|i: int| 0 <= i < half.reads.len() implies (#[trigger] half.reads[i]).0
            < half.cell.regions.len() by {
            assert(half.reads[i].0 == covered[i]);
        }
        assert forall|i: int, j: int|
            #![trigger half.reads[i], half.reads[j]]
            0 <= i < j < half.reads.len() implies half.reads[i].0 != half.reads[j].0 by {
            assert(half.reads[i].0 == covered[i] && half.reads[j].0 == covered[j]);
        }
        if 0 <= k < half.reads.len() {
            let (ri, index) = half.reads[k];
            assert(ri == covered[k]);
            let q = half.cell.regions[ri as int];
            assert(same_region(cell.regions[ri as int], q));
            assert(same_store(
                cell.regions[ri as int].stores[index as int],
                q.stores[index as int],
            ));
            lemma_failed(half.cell, t, half.reads, 0, failure);
            if let Ok(n) = e.rmw_done(object, half, next, write, success) {
                let s = half.cell.tracked_store(t)->Ok_0.next_op();
                let sc = success == Order::SeqCst;
                let t1 = if sc {
                    t.sc_advanced()
                } else {
                    t
                };
                lemma_write_half(
                    s,
                    t1,
                    half.reads,
                    0,
                    half.value,
                    next,
                    write,
                    success,
                    if sc {
                        Some(t.sc_clock)
                    } else {
                        None
                    },
                    s.op_clock,
                );
                let new = last_store(n.cell(object).regions[ri as int]);
                assert(carries_on(
                    t1,
                    q.stores[index as int],
                    q,
                    n.cell(object).regions[ri as int],
                    next,
                    write,
                    success,
                ));
                VersionVec::below_is_partial_order(
                    e.threads.current().causality,
                    t.current().causality,
                    new.sync.happens_before,
                );
            }
        }
    }
}

// ----- fences -----
/// The threads of the execution have room to tick wherever they spawn.
pub open spec fn spawns_tick(h: Seq<Moment>, deeds: Seq<Deed>) -> bool {
    forall|k: int|
        0 <= k < deeds.len() && (#[trigger] deeds[k]) is Spawn ==> h[k].0.threads.can_tick()
}

/// The operation is a fence that releases.
pub open spec fn release_fence(deed: Deed) -> bool {
    deed matches Deed::Fence { order } && (order == Order::Release || order == Order::AcqRel
        || order == Order::SeqCst)
}

proof fn lemma_did_fence(m: Moment, deed: Deed)
    requires
        did(m, deed) is Some,
        release_fence(deed),
    ensures
        m.0.running(m.1),
        ({
            let n = did(m, deed)->Some_0.0;
            let v = m.0.threads.current().causality;
            &&& m.0.threads.me() < n.threads.threads.len()
            &&& v.below(n.threads.threads[m.0.threads.me()].released)
            &&& v.below(n.threads.threads[m.0.threads.me()].causality)
        }),
{
    reveal(did);
    fences_synchronize(m.0, m.1, deed->Fence_order, 0);
    let n = did(m, deed)->Some_0.0;
    assert(later(m.0.threads.threads[m.0.threads.me()], n.threads.threads[m.0.threads.me()]));
}

/// What a thread had seen at a releasing fence is released from then on,
/// whatever happens.
pub proof fn a_release_fence_lasts(h: Seq<Moment>, deeds: Seq<Deed>, i: int, j: int)
    requires
        is_history(h, deeds),
        spawns_tick(h, deeds),
        0 <= i < j < h.len(),
        release_fence(deeds[i]),
    ensures
        h[i].0.threads.current().causality.below(
            h[j].0.threads.threads[h[i].0.threads.me()].released,
        ),
        0 <= h[i].0.threads.me() < h[j].0.threads.threads.len(),
{
    assert(did(h[i], deeds[i]) == Some(h[i + 1]));
    lemma_did_fence(h[i], deeds[i]);
    nothing_is_forgotten(h, deeds, i + 1, j);
    let a = h[i].0.threads.me();
    let v = h[i].0.threads.current().causality;
    let (x, y) = (h[i + 1].0.threads.threads[a], h[j].0.threads.threads[a]);
    assert(later(x, y));
    VersionVec::below_is_partial_order(v, x.causality, y.released);
}

proof fn lemma_did_store(m: Moment, object: usize, mask: u128, value: u128, order: Order)
    requires
        did(m, Deed::Store { object, mask, value, order }) is Some,
    ensures
        m.0.running(m.1),
        m.0.is_cell(object as int),
        m.0.stored(object as int, mask, value, order) == Ok::<ExecModel, Fault>(
            did(m, Deed::Store { object, mask, value, order })->Some_0.0,
        ),
{
    reveal(did);
}

/// A release fence covers the later stores: after a fence of order `Release`,
/// `AcqRel` or `SeqCst`, whatever has happened since, a store of the same
/// thread hands on all that the thread had seen at the fence, whatever the
/// order of the store. A thread that reads it with an acquiring order has then
/// seen all that.
pub proof fn a_fenced_store_is_heard(
    h: Seq<Moment>,
    deeds: Seq<Deed>,
    i: int,
    j: int,
    r: int,
    reader: ThreadsModel,
    acquire: Order,
)
    requires
        is_history(h, deeds),
        spawns_tick(h, deeds),
        0 <= i < j < deeds.len(),
        release_fence(deeds[i]),
        deeds[j] is Store,
        h[j].0.threads.me() == h[i].0.threads.me(),
        reader.running(),
        acquire.joins(),
    ensures
        deeds[j] matches Deed::Store { object, mask, .. } ==> {
            let fenced = h[i].0.threads.current().causality;
            let cell = h[j + 1].0.cell(object as int);
            let view = last_store(cell.regions[r]).sync.happens_before;
            0 <= r < cell.regions.len() && cell.regions[r].mask & mask != 0 ==> {
                &&& fenced.below(view)
                &&& fenced.below(reader.synced(view, acquire).current().causality)
            }
        },
{
    broadcast use VersionVec::lemma_joined_at;

    a_release_fence_lasts(h, deeds, i, j);
    assert(did(h[j], deeds[j]) == Some(h[j + 1]));
    if let Deed::Store { object, mask, value, order } = deeds[j] {
        lemma_did_store(h[j], object, mask, value, order);
        a_store_hands_on_what_was_released(
            h[j].0,
            h[j].1,
            object as int,
            mask,
            value,
            order,
            r,
        );
        let fenced = h[i].0.threads.current().causality;
        let view = last_store(h[j + 1].0.cell(object as int).regions[r]).sync.happens_before;
        VersionVec::below_is_partial_order(fenced, h[j].0.threads.current().released, view);
    }
}

proof fn lemma_did_rmw(
    m: Moment,
    object: usize,
    read: u128,
    write: u128,
    success: Order,
    failure: Order,
    next: u128,
)
    requires
        did(m, Deed::Rmw { object, read, write, success, failure, next: Some(next) }) is Some,
    ensures
        m.0.running(m.1),
        m.0.is_cell(object as int),
        m.0.rmw_begun(object as int, read, write, success, failure) is Ok,
        m.0.rmw_done(
            object as int,
            m.0.rmw_begun(object as int, read, write, success, failure)->Ok_0,
            next,
            write,
            success,
        ) == Ok::<ExecModel, Fault>(
            did(
                m,
                Deed::Rmw { object, read, write, success, failure, next: Some(next) },
            )->Some_0.0,
        ),
{
    reveal(did);
}

/// A release fence covers the later read-modify-writes in the same way.
pub proof fn a_fenced_rmw_is_heard(
    h: Seq<Moment>,
    deeds: Seq<Deed>,
    i: int,
    j: int,
    k: int,
    reader: ThreadsModel,
    acquire: Order,
)
    requires
        is_history(h, deeds),
        spawns_tick(h, deeds),
        0 <= i < j < deeds.len(),
        release_fence(deeds[i]),
        deeds[j] matches Deed::Rmw { object, read, write, next: Some(_), .. } && h[j].0.cell(
            object as int,
        ).partitioned(read).partitioned(write).regions.len() <= usize::MAX,
        h[j].0.threads.me() == h[i].0.threads.me(),
        reader.running(),
        acquire.joins(),
    ensures
        deeds[j] matches Deed::Rmw { object, read, write, success, failure, .. } ==> {
            let fenced = h[i].0.threads.current().causality;
            let half = h[j].0.rmw_begun(object as int, read, write, success, failure)->Ok_0;
            let cell = h[j + 1].0.cell(object as int);
            let ri = half.reads[k].0 as int;
            let view = last_store(cell.regions[ri]).sync.happens_before;
            0 <= k < half.reads.len() && half.cell.regions[ri].mask & write != 0 ==> {
                &&& fenced.below(view)
                &&& fenced.below(reader.synced(view, acquire).current().causality)
            }
        },
{
    broadcast use VersionVec::lemma_joined_at;

    a_release_fence_lasts(h, deeds, i, j);
    assert(did(h[j], deeds[j]) == Some(h[j + 1]));
    let (f, d) = h[j];
    if let Deed::Rmw { object, read, write, success, failure, next: Some(next) } = deeds[j] {
        let o = object as int;
        lemma_did_rmw(h[j], object, read, write, success, failure, next);
        let half = f.rmw_begun(o, read, write, success, failure)->Ok_0;
        let ri = half.reads[k].0 as int;
        a_rmw_goes_on_from_what_it_reads(f, d, o, read, write, success, failure, next, k);
        lemma_half_masks(f, d, o, read, write, success, failure, k);
        let fenced = h[i].0.threads.current().causality;
        let view = last_store(h[j + 1].0.cell(o).regions[ri]).sync.happens_before;
        VersionVec::below_is_partial_order(fenced, f.threads.current().released, view);
    }
}

proof fn lemma_half_masks(
    e: ExecModel,
    c: Seq<Frozen>,
    object: int,
    read: u128,
    write: u128,
    success: Order,
    failure: Order,
    k: int,
)
    requires
        e.running(c),
        e.is_cell(object),
        e.cell(object).partitioned(read).partitioned(write).regions.len() <= usize::MAX,
    ensures
        e.rmw_begun(object, read, write, success, failure) matches Ok(half) ==> {
            let cell = e.cell(object).partitioned(read).partitioned(write);
            let ri = half.reads[k].0 as int;
            0 <= k < half.reads.len() ==> half.cell.regions[ri].mask == cell.regions[ri].mask
        },
{
    if let Ok(half) = e.rmw_begun(object, read, write, success, failure) {
        let t = e.threads.ticked();
        let cell = e.cell(object).partitioned(read).partitioned(write);
        let s1 = cell.tracked_load(t)->Ok_0;
        let s2 = s1.scope_checked(read, success.joins() || failure.joins(), t.me())->Ok_0;
        let covered = s2.covered(read);
        assert forall|i: int| 0 <= i < cell.regions.len() implies same_region(
            cell.regions[i],
            #[trigger] s2.regions[i],
        ) by {}
        lemma_covered(s2, read, s2.regions.len() as int);
        lemma_read_half(cell, s2, e.path, t, covered, 0, Seq::empty(), 0);
        if 0 <= k < half.reads.len() {
            let ri = half.reads[k].0 as int;
            assert(ri == covered[k]);
            assert(same_region(cell.regions[ri], half.cell.regions[ri]));
        }
    }
}

/// Sequentially consistent fences hand on to each other: the thread of the
/// later of two has then seen all that the thread of the earlier one had, and
/// the later one has the later position.
pub proof fn sc_fences_hand_on(h: Seq<Moment>, deeds: Seq<Deed>, i: int, j: int)
    requires
        is_history(h, deeds),
        spawns_tick(h, deeds),
        0 <= i < j < deeds.len(),
        deeds[i] == (Deed::Fence { order: Order::SeqCst }),
        deeds[j] == (Deed::Fence { order: Order::SeqCst }),
    ensures
        h[i].0.threads.current().causality.below(h[j + 1].0.threads.current().causality),
        h[j + 1].0.threads.me() == h[j].0.threads.me(),
{
    reveal(did);
    assert(did(h[i], deeds[i]) == Some(h[i + 1]));
    assert(did(h[j], deeds[j]) == Some(h[j + 1]));
    fences_synchronize(h[i].0, h[i].1, Order::SeqCst, 0);
    fences_synchronize(h[j].0, h[j].1, Order::SeqCst, 0);
    nothing_is_forgotten(h, deeds, i + 1, j);
    let v = h[i].0.threads.current().causality;
    let x = h[i + 1].0.threads.seq_cst_causality;
    let y = h[j].0.threads.seq_cst_causality;
    VersionVec::below_is_partial_order(v, x, y);
    VersionVec::below_is_partial_order(v, y, h[j + 1].0.threads.current().causality);
}

// ----- mutexes -----
/// The operation takes the mutex.
pub open spec fn takes(deed: Deed, object: usize) -> bool {
    match deed {
        Deed::Lock { object: o } => o == object,
        Deed::Advance { wait } => wait.mutex == object && wait.phase is Relock,
        _ => false,
    }
}

/// What was done under a mutex is seen by every later holder: a thread that
/// takes the mutex, by itself or at the end of a wait, has then seen all that
/// any earlier holder had seen when it released the mutex.
pub proof fn a_lock_hears_every_earlier_holder(
    h: Seq<Moment>,
    deeds: Seq<Deed>,
    i: int,
    j: int,
    object: usize,
)
    requires
        is_history(h, deeds),
        spawns_tick(h, deeds),
        0 <= i < j < deeds.len(),
        deeds[i] == (Deed::Unlock { object }),
        takes(deeds[j], object),
    ensures
        h[i].0.threads.current().causality.below(h[j + 1].0.threads.current().causality),
        h[j + 1].0.threads.me() == h[j].0.threads.me(),
        h[j].0.mutex(object as int).lock is None,
        h[j + 1].0.mutex(object as int).lock == Some(h[j].0.threads.me() as usize),
{
    reveal(did);
    broadcast use VersionVec::lemma_joined_at;

    assert(did(h[i], deeds[i]) == Some(h[i + 1]));
    assert(did(h[j], deeds[j]) == Some(h[j + 1]));
    let o = object as int;
    let v = h[i].0.threads.current().causality;
    let x = h[i + 1].0.mutex(o).sync.happens_before;
    assert(v.below(x));
    nothing_is_forgotten(h, deeds, i + 1, j);
    assert(h[i + 1].0.is_mutex(o));
    let y = h[j].0.mutex(o).sync.happens_before;
    VersionVec::below_is_partial_order(v, x, y);
    let n = h[j + 1].0.threads.current().causality;
    assert(y.below(n));
    VersionVec::below_is_partial_order(v, y, n);
}

/// A mutex has one holder: it is taken by nobody while it is held, whoever
/// takes it holds it, and releasing it lets every thread run that is about to
/// operate on it.
pub proof fn a_mutex_has_one_holder(e: ExecModel, object: usize, u: int)
    requires
        e.threads.running(),
        e.is_mutex(object as int),
        0 <= u < e.threads.threads.len(),
    ensures
        ({
            let held = e.mutex(object as int).lock;
            let contends = u != e.threads.me() && (
            e.threads.threads[u].operation matches Some(op) && op.object == object);
            let free = e.unlocked(object);
            let waiting = e.contending(object).threads.current();
            &&& held is Some ==> e.locked(object) is Err
            &&& held is None ==> (e.locked(object) matches Ok(n) && {
                &&& n.mutex(object as int).lock == Some(e.threads.me() as usize)
                &&& n.locked(object) is Err
                &&& contends ==> !n.threads.threads[u].runnable()
                &&& !contends && u != e.threads.me() ==> n.threads.threads[u]
                    == e.threads.threads[u]
            })
            &&& free.mutex(object as int).lock is None
            &&& free.locked(object) is Ok
            &&& contends ==> free.threads.threads[u].runnable()
            &&& !contends ==> free.threads.threads[u] == e.threads.threads[u]
            &&& waiting.operation matches Some(op) && op.object == object
            &&& held is Some ==> !waiting.runnable()
            &&& held is None ==> waiting.state == e.threads.current().state
        }),
{
}

// ----- threads -----
/// A new thread has seen all that its parent had, and neither has seen what
/// the other does from then on.
pub proof fn a_new_thread_hears_its_parent(e: ExecModel, c: Seq<Frozen>)
    requires
        e.running(c),
        e.threads.can_tick(),
        e.threads.threads.len() < e.max_threads,
        e.threads.current().causality.at(e.threads.threads.len() as int) < u16::MAX,
    ensures
        ({
            let n = e.spawned();
            let id = e.threads.threads.len() as int;
            let me = e.threads.me();
            let child = n.threads.threads[id];
            let parent = n.threads.threads[me];
            &&& n.threads.threads.len() == id + 1
            &&& n.threads.me() == me
            &&& child.runnable()
            &&& e.threads.current().causality.below(child.causality)
            &&& e.threads.current().causality.below(parent.causality)
            &&& e.threads.current().dpor_vv.below(child.dpor_vv)
            &&& !child.causality.below(parent.causality)
            &&& !parent.causality.below(child.causality)
            &&& forall|i: int|
                0 <= i < id && i != me ==> #[trigger] n.threads.threads[i]
                    == e.threads.threads[i]
        }),
{
    broadcast use VersionVec::lemma_joined_at;
    broadcast use VersionVec::lemma_bumped_at;
    broadcast use VersionVec::lemma_zero_at;

    let n = e.spawned();
    let id = e.threads.threads.len() as int;
    let me = e.threads.me();
    let child = n.threads.threads[id];
    let parent = n.threads.threads[me];
    assert(child.causality.at(id) > parent.causality.at(id));
    assert(parent.causality.at(me) > child.causality.at(me));
}

/// A thread that is woken has seen all that the one that woke it had, and can
/// run; one that was not waiting keeps the wake-up for its next park.
pub proof fn the_woken_hear_the_waker(t: ThreadsModel, id: int, u: int)
    requires
        t.running(),
        0 <= id < t.threads.len(),
        0 <= u < t.threads.len(),
    ensures
        ({
            let n = t.unparked(id);
            let th = t.threads[id];
            &&& t.current().causality.below(n.threads[id].causality)
            &&& th.causality.below(n.threads[id].causality)
            &&& !(th.state is Terminated) ==> n.threads[id].runnable()
            &&& th.state is Terminated ==> n.threads[id].state is Terminated
            &&& th.runnable() ==> n.threads[id].state == (State::Runnable { unparked: true })
            &&& !th.runnable() && !(th.state is Terminated) ==> n.threads[id].state == (
            State::Runnable { unparked: false })
            &&& u != id ==> n.threads[u] == t.threads[u]
            &&& n.me() == t.me()
        }),
{
    broadcast use VersionVec::lemma_joined_at;

}

// ----- the total order -----
/// Sequentially consistent stores take their positions in the total order one
/// after the other, and no other store takes any.
pub proof fn sc_stores_are_ranked_in_turn(
    e: ExecModel,
    c: Seq<Frozen>,
    object: int,
    mask: u128,
    value: u128,
    order: Order,
    i: int,
)
    requires
        e.running(c),
        e.is_cell(object),
    ensures
        e.stored(object, mask, value, order) matches Ok(n) ==> {
            let cell = n.cell(object);
            let new = last_store(cell.regions[i]);
            &&& order == Order::SeqCst ==> n.threads.sc_clock > e.threads.sc_clock
            &&& order != Order::SeqCst ==> n.threads.sc_clock == e.threads.sc_clock
            &&& 0 <= i < cell.regions.len() && cell.regions[i].mask & mask != 0 ==> {
                &&& order == Order::SeqCst ==> (new.sc_rank matches Some(rank)
                    && e.threads.sc_clock <= rank < n.threads.sc_clock)
                &&& order != Order::SeqCst ==> new.sc_rank is None
            }
        },
{
    if let Ok(n) = e.stored(object, mask, value, order) {
        assert(e.objects[object].wf());
        partition_refines(e.cell(object), mask, i);
        let p = e.cell(object).partitioned(mask);
        let cell = n.cell(object);
        if 0 <= i < cell.regions.len() && cell.regions[i].mask & mask != 0 {
            let t = e.threads.ticked();
            let s = p.tracked_store(t)->Ok_0.next_op();
            assert(p.regions[i].wf());
            assert(s.regions == p.regions);
            let sc = order == Order::SeqCst;
            let t1 = if sc {
                t.sc_advanced()
            } else {
                t
            };
            let rank = if sc {
                Some(t.sc_clock)
            } else {
                None
            };
            let new = p.regions[i].new_store(
                t1,
                Synchronize::empty(),
                value,
                order,
                rank,
                s.op_clock,
            );
            assert(cell.regions[i] == p.regions[i].appended(new));
            assert(last_store(cell.regions[i]) == new);
        }
    }
}

// ----- beginnings -----
/// An execution begins with one thread, which is active, can run and has seen
/// nothing, and with nothing shared.
pub proof fn an_execution_begins_with_nothing(e: ExecModel, p: PathModel)
    ensures
        ({
            let n = e.restarted(p);
            &&& n.path == p
            &&& n.threads.running()
            &&& n.threads.threads.len() == 1
            &&& n.threads.me() == 0
            &&& n.threads.current().runnable()
            &&& n.threads.current().causality == VersionVec::zero()
            &&& n.threads.current().released == VersionVec::zero()
            &&& n.threads.current().operation is None
            &&& n.objects.len() == 0
            &&& n.deferred.dom() =~= Set::<u64>::empty()
            &&& n.materialized.dom() =~= Set::<u64>::empty()
            &&& n.published.len() == 0
            &&& n.sleep.asleep == 0
            &&& n.dpor_update is None
            &&& n.sleep_sets == e.sleep_sets && n.max_threads == e.max_threads
        }),
{
}

/// A cell that is registered for the first time holds its initial value, which
/// for published memory is zero; later registrations find the same cell, with
/// whatever it holds by then.
pub proof fn a_registered_cell_holds_its_initial_value(
    e: ExecModel,
    c: Seq<Frozen>,
    id: u64,
    init: u128,
    addr: u64,
)
    requires
        e.running(c),
        e.objects.len() < usize::MAX,
    ensures
        ({
            let (n, object) = e.registered(id, init);
            &&& n.is_cell(object as int)
            &&& !e.deferred.contains_key(id) ==> object == e.objects.len() && n.cell(
                object as int,
            ).value() == init
            &&& e.deferred.contains_key(id) ==> n == e
            &&& n.registered(id, 0) == (n, object)
        }),
        e.materialized_at(addr) matches Ok((n, object)) ==> {
            &&& n.is_cell(object as int)
            &&& !e.materialized.contains_key(addr) ==> object == e.objects.len() && n.cell(
                object as int,
            ).value() == 0
            &&& e.materialized.contains_key(addr) ==> n == e
            &&& n.materialized_at(addr) == Ok::<(ExecModel, usize), Fault>((n, object))
        },
{
    a_new_cell_holds_its_value(e.threads, init, None, e.threads);
    if let Some(v) = publisher(e.published, addr, e.published.len() as int) {
        a_new_cell_holds_its_value(e.threads, 0, Some(v), e.threads);
    }
    if e.deferred.contains_key(id) {
        assert(e.objects[e.deferred[id] as int] is Atomic);
    }
    if e.materialized.contains_key(addr) {
        assert(e.objects[e.materialized[addr] as int] is Atomic);
    }
}

/// Zeroing a range clears the registered cells in it, and touches nothing else.
pub proof fn zeroing_clears_the_range(
    e: ExecModel,
    c: Seq<Frozen>,
    base: u64,
    len: u64,
    object: int,
)
    requires
        e.running(c),
        e.objects.len() <= usize::MAX,
        0 <= object < e.objects.len(),
    ensures
        ({
            let n = e.zeroed(base, len);
            &&& n.threads == e.threads
            &&& e.cell_within(object as usize, base, len) && e.zeroed_cell(object) is Ok
                ==> n.is_cell(object) && n.cell(object).value() == 0
            &&& !e.cell_within(object as usize, base, len) ==> n.objects[object]
                == e.objects[object]
        }),
{
    if e.cell_within(object as usize, base, len) {
        let k = choose|k: u64|
            #![trigger e.materialized.contains_key(k)]
            e.materialized.contains_key(k) && in_range(k, base, len) && e.materialized[k]
                == object as usize;
        assert(e.objects[e.materialized[k] as int] is Atomic);
        assert(e.objects[object].wf());
        if let Ok(s) = e.cell(object).tracked_unsync_mut(e.threads) {
            assert(s.wf());
            overwriting_gives_the_value_back(s, 0);
        }
    }
}

} // verus!
