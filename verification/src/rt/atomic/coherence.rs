//! What orders the stores of a region, and what a load may return.
use vstd::prelude::*;

use crate::rt::atomic::laws::{every_legal_store_is_offered, timely};
use crate::rt::atomic::load::ViewModel;
use crate::rt::atomic::region::{in_scope, sc_scope, RegionModel};
use crate::rt::atomic::snapshot::Reading;
use crate::rt::atomic::state::{newest_bits, StateModel};
use crate::rt::atomic::store::{
    close_pass, closed_under_rmw, lemma_closed, ordered, FirstSeen, Store,
};
use crate::rt::bits;
use crate::rt::execution::ExecModel;
use crate::rt::order::Order;
use crate::rt::races::{lemma_below_join, lemma_clear};
use crate::rt::synchronize::Synchronize;
use crate::rt::thread::ThreadsModel;
use crate::rt::vv::VersionVec;
use crate::rt::{MAX_ATOMIC_HISTORY, MAX_THREADS};

verus! {

proof fn lemma_coherence_covers(r: RegionModel, causality: VersionVec, index: int, n: int, i: int)
    requires
        0 <= n <= r.stores.len(),
        0 <= i < n ==> i != index && (r.stores[i].first_seen.seen_in(causality)
            || r.stores[i].happens_before.strictly_below(causality)),
    ensures
        r.stores[index].modification_order.below(r.coherence_join(causality, index, n)),
        0 <= i < n ==> r.stores[i].modification_order.below(r.coherence_join(causality, index, n)),
    decreases n,
{
    let own = r.stores[index].modification_order;
    VersionVec::below_is_partial_order(own, own, own);
    if n > 0 {
        let before = r.coherence_join(causality, index, n - 1);
        let s = r.stores[n - 1].modification_order;
        lemma_coherence_covers(
            r,
            causality,
            index,
            n - 1,
            if i < n - 1 {
                i
            } else {
                -1
            },
        );
        VersionVec::join_is_least_upper_bound(before, s, s);
        VersionVec::below_is_partial_order(own, before, before.joined(s));
        if 0 <= i < n - 1 {
            VersionVec::below_is_partial_order(
                r.stores[i].modification_order,
                before,
                before.joined(s),
            );
        }
    }
}

/// Read coherence: the store that a thread reads is from then on
/// modification-order-after every other store of the region that the thread had
/// already seen or that had happened before. So the thread, and whoever hears of
/// its read, never returns to those.
pub proof fn a_read_orders_what_was_seen_before_it(
    r: RegionModel,
    t: ThreadsModel,
    index: int,
    i: int,
)
    requires
        r.wf(),
        t.running(),
        0 <= index < r.stores.len(),
        0 <= i < r.stores.len(),
        i != index,
        r.stores[i].first_seen.seen_in(t.current().causality)
            || r.stores[i].happens_before.strictly_below(t.current().causality),
    ensures
        ordered(r.read(t, index).stores[i], r.read(t, index).stores[index]),
        r.read(t, index).stores[i] == r.stores[i],
        r.read(t, index).stores[index].value == r.stores[index].value,
        r.read(t, index).stores[index].sync == r.stores[index].sync,
        r.read(t, index).stores[index].first_seen.touched_by(t.me()) || t.version() == u16::MAX,
{
    let n = r.stores.len() as int;
    let (s, read) = (r.stores[i], r.stores[index]);
    let joined = r.coherence_join(t.current().causality, index, n);
    let closed = closed_under_rmw(r.stores, joined, read.id);
    assert(s.wf() && read.wf());
    assert(s.id as int % MAX_ATOMIC_HISTORY as int == i);
    assert(read.id as int % MAX_ATOMIC_HISTORY as int == index);
    lemma_coherence_covers(r, t.current().causality, index, n, i);
    lemma_closed(r.stores, joined, read.id);
    VersionVec::below_is_partial_order(s.happens_before, s.modification_order, joined);
    VersionVec::below_is_partial_order(s.happens_before, joined, closed);
    assert(s.happens_before.at(s.creator as int) <= closed.at(s.creator as int));
    FirstSeen::lemma_touched_at(
        read.first_seen,
        t.me(),
        t.version(),
        t.me(),
    );
}

proof fn lemma_maximal(r: RegionModel, n: int, i: int)
    requires
        0 <= n <= r.stores.len() <= MAX_ATOMIC_HISTORY,
        0 <= i < MAX_ATOMIC_HISTORY,
    ensures
        r.maximal(n).contains(i as u8) <==> i < n && !r.succeeded(i),
    decreases n,
{
    if n > 0 {
        lemma_maximal(r, n - 1, i);
        let before = r.maximal(n - 1);
        let all = r.maximal(n);
        if !r.succeeded(n - 1) {
            assert(all == before.push((n - 1) as u8));
            if i == n - 1 {
                assert(all[before.len() as int] == i as u8);
            } else if before.contains(i as u8) {
                let k = choose|k: int| 0 <= k < before.len() && before[k] == i as u8;
                assert(all[k] == i as u8);
            } else {
                assert(forall|k: int| 0 <= k < all.len() ==> all[k] != i as u8);
            }
        }
    }
}

/// A read-modify-write is offered exactly the stores that nothing is known to
/// come after: it reads the last in modification order, as far as that is
/// known.
pub proof fn a_rmw_reads_what_nothing_follows(r: RegionModel, i: int, j: int)
    requires
        r.wf(),
        0 <= i < r.stores.len(),
        0 <= j < r.stores.len(),
        i != j,
    ensures
        ordered(r.stores[i], r.stores[j]) ==> !r.maximal(r.stores.len() as int).contains(i as u8),
        (forall|k: int|
            0 <= k < r.stores.len() && k != i ==> !ordered(
                r.stores[i],
                #[trigger] r.stores[k],
            )) ==> r.maximal(r.stores.len() as int).contains(i as u8),
{
    lemma_maximal(r, r.stores.len() as int, i);
}

/// Sequential consistency: a `SeqCst` load does not return a store that a
/// ranked one comes after; and after a `SeqCst` fence no load of its thread
/// returns a store that one ranked up to the fence comes after.
pub proof fn sc_reads_keep_to_the_total_order(
    r: RegionModel,
    t: ThreadsModel,
    view: VersionVec,
    order: Order,
    i: int,
    j: int,
)
    requires
        0 <= i < r.stores.len(),
        0 <= j < r.stores.len(),
        i != j,
        ordered(r.stores[i], r.stores[j]),
    ensures
        r.stores[j].sc_rank is Some ==> r.superseded(t, view, Order::SeqCst, i),
        r.stores[j].sc_rank matches Some(rank) ==> (t.current().sc_fence_pos matches Some(pos) ==> (
        rank <= pos ==> r.superseded(t, view, order, i))),
{
    let scope = sc_scope(t, Order::SeqCst);
    assert(r.stores[j].sc_rank is Some ==> in_scope(
        r.stores[j],
        scope,
    ));
}

/// Weak memory: a load that takes no part in the sequentially consistent order,
/// by a thread that has not yielded, may return any store of which the thread
/// has seen nothing later, however old it is.
pub proof fn a_weak_load_may_be_stale(
    r: RegionModel,
    t: ThreadsModel,
    view: VersionVec,
    order: Order,
    i: int,
)
    requires
        0 <= i < r.stores.len(),
        order != Order::SeqCst,
        t.current().sc_fence_pos is None,
        t.current().last_yield is None,
        forall|j: int|
            0 <= j < r.stores.len() && j != i && ordered(
                r.stores[i],
                #[trigger] r.stores[j],
            ) ==> !r.stores[j].first_seen.seen_in(view),
    ensures
        !r.superseded(t, view, order, i),
{
}

/// A thread that has yielded moves on: it does not again read a store that it
/// had seen by then and that another comes after.
pub proof fn a_yield_moves_on(
    r: RegionModel,
    e: ExecModel,
    view: VersionVec,
    order: Order,
    i: int,
    j: int,
)
    requires
        e.threads.running(),
        timely(r, e.threads),
        0 <= i < r.stores.len(),
        0 <= j < r.stores.len(),
        i != j,
        ordered(r.stores[i], r.stores[j]),
        r.stores[i].first_seen.touched_by(e.threads.me()),
    ensures
        r.superseded(e.yielding().threads, view, order, i),
        e.yielding().threads.current().state is Yield,
{
    let me = e.threads.me();
    assert(r.stores[i].first_seen.at(me) <= e.threads.threads[me].causality.at(me));
    assert(r.stores[i].first_seen.seen_before_yield(e.yielding().threads));
}

/// A sequentially consistent fence takes the stores of its thread into the
/// total order at its position, keeps the positions that others have, and
/// changes no store otherwise.
pub proof fn a_fence_ranks_the_stores_of_its_thread(
    s: StateModel,
    creator: int,
    pos: u32,
    i: int,
    k: int,
)
    requires
        0 <= i < s.regions.len(),
        0 <= k < s.regions[i].stores.len(),
    ensures
        ({
            let a = s.regions[i].stores[k];
            let b = s.promoted(creator, pos).regions[i].stores[k];
            &&& a.creator == creator ==> b.sc_rank is Some
            &&& a.creator == creator && a.sc_rank is None ==> b.sc_rank == Some(pos)
            &&& a.sc_rank is Some || a.creator != creator ==> b == a
            &&& b == (Store { sc_rank: b.sc_rank, ..a })
        }),
{
}

proof fn lemma_full(v: u128)
    by (bit_vector)
    ensures
        0u128 | (v & 0xffff_ffff_ffff_ffff_ffff_ffff_ffff_ffffu128) == v,
{
}

/// A new cell holds its value, and nothing but that can be read from it. No
/// access by a thread that has not seen its creation is let through; a cell
/// that precedes the execution asks nothing of the sort, unless its memory was
/// published.
pub proof fn a_new_cell_holds_its_value(
    t: ThreadsModel,
    value: u128,
    published: Option<VersionVec>,
    reader: ThreadsModel,
)
    requires
        t.running(),
        reader.running(),
    ensures
        StateModel::created(t, value).value() == value,
        StateModel::deferred(value, published).value() == value,
        StateModel::created(t, value).regions.len() == 1,
        StateModel::created(t, value).regions[0].stores.len() == 1,
        StateModel::deferred(value, published).regions.len() == 1,
        StateModel::deferred(value, published).regions[0].stores.len() == 1,
        ({
            let s = StateModel::created(t, value);
            let seen = t.current().causality.below(reader.current().causality);
            &&& s.tracked_load(reader) is Ok <==> seen
            &&& s.tracked_store(reader) is Ok <==> seen
            &&& s.tracked_unsync_load(reader) is Ok <==> seen
            &&& s.tracked_unsync_mut(reader) is Ok <==> seen
        }),
        ({
            let s = StateModel::deferred(value, published);
            let seen = published matches Some(v) ==> v.below(reader.current().causality);
            &&& s.tracked_load(reader) is Ok <==> seen
            &&& s.tracked_store(reader) is Ok <==> seen
            &&& s.tracked_unsync_load(reader) is Ok <==> seen
            &&& s.tracked_unsync_mut(reader) is Ok <==> seen
        }),
{
    broadcast use VersionVec::lemma_joined_at;
    broadcast use VersionVec::lemma_zero_at;

    lemma_full(value);
    let a = StateModel::created(t, value);
    let b = StateModel::deferred(value, published);
    assert(newest_bits(a.regions, 0) == 0);
    assert(newest_bits(b.regions, 0) == 0);
    assert(newest_bits(a.regions, 1) == value);
    assert(newest_bits(b.regions, 1) == value);
    let w = reader.current().causality;
    lemma_below_join(VersionVec::zero(), t.current().causality, w);
    lemma_clear(w, VersionVec::zero());
    lemma_clear(w, a.unsync_mut_at);
    lemma_clear(w, b.unsync_mut_at);
}

/// A preserving read-modify-write hands its causality on only through the bits
/// that it writes. From then on an acquiring read that reaches a region which
/// the operation carried along, and none that it wrote, is refused unless its
/// thread made the operation itself; a read that does not acquire is let
/// through, and remembered.
pub proof fn a_preserved_lane_is_not_acquired_from(
    s: StateModel,
    ri: int,
    t: ThreadsModel,
    index: int,
    op_id: u64,
    write_mask: u128,
    mask: u128,
    reader: int,
)
    requires
        s.wf(),
        t.running(),
        0 <= ri < s.regions.len(),
        s.regions[ri].mask & mask != 0,
        write_mask & mask == 0,
        reader != t.me(),
        0 <= reader < 16,
    ensures
        ({
            let n = s.with_region(ri, s.regions[ri].preserving(t, index, op_id, write_mask));
            &&& n.scope_checked(mask, true, reader) is Err
            &&& n.scope_checked(mask, false, reader) matches Ok(m) && bits::holds(
                m.regions[ri].unrouted_readers,
                reader,
            )
        }),
{
    broadcast use bits::group_bits;

    let r = s.regions[ri];
    assert(r.wf());
    let n = s.with_region(ri, r.preserving(t, index, op_id, write_mask));
    let q = n.regions[ri];
    let k = r.preserved_cnt % MAX_ATOMIC_HISTORY as int;
    assert(0 <= k < q.preserved.len());
    assert(q.preserved[k].write_mask == write_mask && q.preserved[k].creator == t.me());
    assert(q.unrouted(mask, reader));
}

proof fn lemma_unfloored(s: StateModel, ri: int, view: ViewModel, seed: Seq<u8>, n: int, x: u8)
    requires
        0 <= n <= seed.len(),
        s.unfloored(ri, view, seed, n).contains(x),
    ensures
        seed.contains(x),
        !s.floored(ri, view, x as int),
    decreases n,
{
    if n > 0 {
        let all = s.unfloored(ri, view, seed, n);
        let k = choose|k: int| 0 <= k < all.len() && all[k] == x;
        let before = s.unfloored(ri, view, seed, n - 1);
        if k < before.len() {
            assert(before[k] == x);
            lemma_unfloored(s, ri, view, seed, n - 1, x);
        } else {
            assert(seed[n - 1] == x);
        }
    }
}

proof fn lemma_consistent_upto(
    s: StateModel,
    t: ThreadsModel,
    covered: Seq<usize>,
    k: int,
    order: Order,
    floor: bool,
    resolved: Seq<(u64, bool)>,
    seed: Seq<u8>,
    n: int,
    x: u8,
)
    requires
        0 <= n <= seed.len(),
        s.consistent_upto(t, covered, k, order, floor, resolved, seed, n).contains(x),
    ensures
        seed.contains(x),
    decreases n,
{
    if n > 0 {
        let all = s.consistent_upto(t, covered, k, order, floor, resolved, seed, n);
        let i = choose|i: int| 0 <= i < all.len() && all[i] == x;
        let before = s.consistent_upto(t, covered, k, order, floor, resolved, seed, n - 1);
        if i < before.len() {
            assert(before[i] == x);
            lemma_consistent_upto(s, t, covered, k, order, floor, resolved, seed, n - 1, x);
        } else {
            assert(seed[n - 1] == x);
        }
    }
}

/// A load offers only stores that it may return: none that a store comes after
/// which its thread has seen, or which is ranked within its scope. A load of one
/// region offers all of them, unless it has to keep up with the whole cell.
pub proof fn a_load_offers_what_it_may_return(
    s: StateModel,
    t: ThreadsModel,
    covered: Seq<usize>,
    k: int,
    order: Order,
    floor: bool,
    resolved: Seq<(u64, bool)>,
    i: int,
)
    requires
        s.wf(),
        0 <= k < covered.len(),
        covered[k] < s.regions.len(),
        0 <= i < s.regions[covered[k] as int].stores.len(),
    ensures
        s.offered(t, covered, k, order, floor, resolved) matches Ok(seed) ==> {
            let r = s.regions[covered[k] as int];
            let legal = !r.superseded(t, t.current().causality, order, i);
            &&& seed.contains(i as u8) ==> legal
            &&& covered.len() == 1 && (!floor || s.regions.len() == 1) && legal ==> seed.contains(
                i as u8,
            )
        },
{
    let ri = covered[k] as int;
    let r = s.regions[ri];
    let view = ViewModel::at_entry(t);
    let base = r.readable(t, view.causality, order, r.stores.len() as int);
    assert(r.wf());
    every_legal_store_is_offered(r, t, t.current().causality, order, i);
    if let Ok(seed) = s.offered(t, covered, k, order, floor, resolved) {
        let all = s.candidates(t, ri, view, order, floor);
        if seed.contains(i as u8) {
            if covered.len() > 1 {
                lemma_consistent_upto(
                    s,
                    t,
                    covered,
                    k,
                    order,
                    floor,
                    resolved,
                    all,
                    all.len() as int,
                    i as u8,
                );
            }
            if floor && s.regions.len() > 1 {
                lemma_unfloored(s, ri, view, base, base.len() as int, i as u8);
            }
        }
    }
}

/// A load at the end of its path reads a store that it may return, wherever
/// there is one.
pub proof fn a_fresh_load_reads_what_it_may(
    r: Reading,
    covered: Seq<usize>,
    order: Order,
    legal: int,
)
    requires
        r.cell.wf(),
        r.path.traversed(),
        0 <= r.path.pos,
        covered.len() == 1,
        covered[0] < r.cell.regions.len(),
        0 <= legal < r.cell.regions[covered[0] as int].stores.len(),
        !r.cell.regions[covered[0] as int].superseded(
            r.threads,
            r.threads.current().causality,
            order,
            legal,
        ),
    ensures
        r.next(covered, 0, order, false) matches Some((index, rest)) ==> {
            let region = r.cell.regions[covered[0] as int];
            &&& 0 <= index < region.stores.len()
            &&& !region.superseded(r.threads, r.threads.current().causality, order, index)
        },
{
    a_load_offers_what_it_may_return(
        r.cell,
        r.threads,
        covered,
        0,
        order,
        false,
        r.resolved,
        legal,
    );
    if let Some((index, rest)) = r.next(covered, 0, order, false) {
        let seed = r.cell.offered(r.threads, covered, 0, order, false, r.resolved)->Ok_0;
        assert(seed.contains(legal as u8));
        assert(index == seed[0]);
        assert(seed.contains(seed[0]));
        a_load_offers_what_it_may_return(
            r.cell,
            r.threads,
            covered,
            0,
            order,
            false,
            r.resolved,
            index,
        );
    }
}

/// A thread sees a store for the first time once: seeing it again changes
/// nothing, and nothing changes for the others.
pub proof fn a_first_sight_is_kept(f: FirstSeen, t: int, v: u16, u: int)
    requires
        0 <= t < MAX_THREADS,
        0 <= u < MAX_THREADS,
    ensures
        f.touched_by(t) ==> f.touched(t, v).at(t) == f.at(t),
        !f.touched_by(t) ==> f.touched(t, v).at(t) == v,
        u != t ==> f.touched(t, v).at(u) == f.at(u),
        !FirstSeen::never().touched_by(t),
{
    FirstSeen::lemma_never_at(t);
    FirstSeen::lemma_touched_at(f, t, v, t);
    FirstSeen::lemma_touched_at(f, t, v, u);
}

/// None of the first `n` stores is known to the writer, or ranked before it.
pub open spec fn all_unknown(r: RegionModel, causality: VersionVec, sc: bool, n: int) -> bool {
    forall|k: int|
        0 <= k < n ==> {
            let s = #[trigger] r.stores[k];
            &&& !s.first_seen.seen_in(causality)
            &&& causality.at(s.creator as int) < s.stamp()
            &&& !(sc && s.sc_rank is Some)
            &&& s.rmw_read is None
        }
}

proof fn lemma_nothing_joined(r: RegionModel, causality: VersionVec, sc: bool, n: int)
    requires
        0 <= n <= r.stores.len(),
        all_unknown(r, causality, sc, n),
    ensures
        r.store_join(causality, sc, n) == causality,
    decreases n,
{
    if n > 0 {
        lemma_nothing_joined(r, causality, sc, n - 1);
        assert(!r.stores[n - 1].first_seen.seen_in(causality));
    }
}

proof fn lemma_nothing_closed(stores: Seq<Store>, mo: VersionVec, id: u16, n: int)
    requires
        0 <= n <= stores.len(),
        forall|k: int| 0 <= k < n ==> (#[trigger] stores[k]).rmw_read is None,
    ensures
        close_pass(stores, mo, id, n) == mo,
    decreases n,
{
    if n > 0 {
        lemma_nothing_closed(stores, mo, id, n - 1);
        assert(stores[n - 1].rmw_read is None);
    }
}

/// Concurrent stores are not ordered: where a writer knows of none of the
/// stores of a region, its own comes after none of them, so that either may be
/// the last.
pub proof fn concurrent_stores_are_not_ordered(
    r: RegionModel,
    t: ThreadsModel,
    sync: Synchronize,
    value: u128,
    order: Order,
    sc_rank: Option<u32>,
    op_id: u64,
    i: int,
)
    requires
        r.wf(),
        0 <= i < r.stores.len(),
        all_unknown(r, t.current().causality, sc_rank is Some, r.stores.len() as int),
    ensures
        !ordered(r.stores[i], r.new_store(t, sync, value, order, sc_rank, op_id)),
{
    let causality = t.current().causality;
    let n = r.stores.len() as int;
    lemma_nothing_joined(r, causality, sc_rank is Some, n);
    assert forall|k: int| 0 <= k < n implies (#[trigger] r.stores[k]).rmw_read is None by {}
    lemma_nothing_closed(r.stores, causality, r.cnt as u16, n);
    assert(causality.at(r.stores[i].creator as int) < r.stores[i].stamp());
}

} // verus!
