//! What holds of atomic cells whatever is done to them.
use vstd::prelude::*;

use crate::rt::atomic::region::{fixed_for, in_scope, pre_execution_store, sc_scope, RegionModel};
use crate::rt::atomic::state::{cut_upto, newest_bits, owned, straddles, StateModel};
use crate::rt::atomic::store::{closed_under_rmw, lemma_closed, ordered, FirstSeen, Store};
use crate::rt::order::Order;
use crate::rt::synchronize::Synchronize;
use crate::rt::thread::{Action, ThreadsModel};
use crate::rt::vv::VersionVec;
use crate::rt::MAX_ATOMIC_HISTORY;

verus! {

// ----- coherence -----
/// No thread has seen a store of the region at a version that it has not
/// reached yet.
pub open spec fn timely(r: RegionModel, t: ThreadsModel) -> bool {
    forall|k: int, u: int|
        #![trigger r.stores[k].first_seen.at(u)]
        0 <= k < r.stores.len() && 0 <= u < t.threads.len()
            && r.stores[k].first_seen.touched_by(u) ==> r.stores[k].first_seen.at(u)
            <= t.threads[u].causality.at(u)
}

/// Reading and writing keep that so.
pub proof fn operations_stay_timely(r: RegionModel, t: ThreadsModel, index: int, s: Store)
    requires
        r.wf(),
        t.running(),
        timely(r, t),
        0 <= index < r.stores.len(),
        s.first_seen == FirstSeen::never().touched(t.me(), t.version()),
    ensures
        timely(r.read(t, index), t),
        timely(r.appended(s), t),
{
    broadcast use FirstSeen::lemma_never_at;
    broadcast use FirstSeen::lemma_touched_at;

    let n = r.read(t, index);
    assert forall|k: int, u: int|
        #![trigger n.stores[k].first_seen.at(u)]
        0 <= k < n.stores.len() && 0 <= u < t.threads.len()
            && n.stores[k].first_seen.touched_by(u) implies n.stores[k].first_seen.at(u)
        <= t.threads[u].causality.at(u) by {
        assert(r.stores[k].first_seen.at(u) == r.stores[k].first_seen.at(u));
    }
    let a = r.appended(s);
    assert forall|k: int, u: int|
        #![trigger a.stores[k].first_seen.at(u)]
        0 <= k < a.stores.len() && 0 <= u < t.threads.len()
            && a.stores[k].first_seen.touched_by(u) implies a.stores[k].first_seen.at(u)
        <= t.threads[u].causality.at(u) by {
        if k < r.stores.len() {
            assert(r.stores[k].first_seen.at(u) == r.stores[k].first_seen.at(u));
        }
    }
}

/// Read-read coherence: once the active thread has read slot `j`, neither a
/// later load of it nor a load of a thread that has heard of that read returns
/// a store that is modification-order-before `j`.
pub proof fn reads_never_go_back(
    r: RegionModel,
    t: ThreadsModel,
    later: ThreadsModel,
    j: int,
    i: int,
    order: Order,
)
    requires
        r.wf(),
        t.running(),
        timely(r, t),
        t.version() < u16::MAX,
        0 <= j < r.stores.len(),
        0 <= i < r.stores.len(),
        i != j,
        ordered(r.read(t, j).stores[i], r.read(t, j).stores[j]),
        later.current().causality.at(t.me()) >= t.version(),
    ensures
        r.read(t, j).superseded(later, later.current().causality, order, i),
{
    let n = r.read(t, j);
    let me = t.me();
    FirstSeen::lemma_touched_at(r.stores[j].first_seen, me, t.version(), me);
    let view = later.current().causality;
    assert(r.stores[j].first_seen.at(me) == u16::MAX || r.stores[j].first_seen.at(me)
        <= t.version());
    assert(n.stores[j].first_seen.at(me) != u16::MAX);
    assert(n.stores[j].first_seen.at(me) <= view.at(me));
    assert(n.stores[j].first_seen.seen_in(view));
}

proof fn lemma_store_join_covers(r: RegionModel, causality: VersionVec, sc: bool, n: int, i: int)
    requires
        0 <= i < n <= r.stores.len(),
        r.stores[i].first_seen.seen_in(causality) || causality.at(r.stores[i].creator as int)
            >= r.stores[i].stamp() || (sc && r.stores[i].sc_rank is Some),
    ensures
        r.stores[i].modification_order.below(r.store_join(causality, sc, n)),
    decreases n,
{
    let mo = r.stores[i].modification_order;
    let before = r.store_join(causality, sc, n - 1);
    let s = r.stores[n - 1].modification_order;
    VersionVec::join_is_least_upper_bound(before, s, s);
    VersionVec::below_is_partial_order(before, before, before);
    if i < n - 1 {
        lemma_store_join_covers(r, causality, sc, n - 1, i);
        VersionVec::below_is_partial_order(mo, before, before.joined(s));
    }
}

/// Write coherence: a new store is modification-order-after every store that
/// its thread has seen or that happened before it; and a sequentially
/// consistent store is after every store that is already ranked.
pub proof fn writes_follow_what_came_before(
    r: RegionModel,
    t: ThreadsModel,
    sync: Synchronize,
    value: u128,
    order: Order,
    sc_rank: Option<u32>,
    op_id: u64,
    i: int,
)
    requires
        r.wf(),
        t.running(),
        r.cnt < u16::MAX,
        0 <= i < r.stores.len(),
        r.stores[i].first_seen.seen_in(t.current().causality) || t.current().causality.at(
            r.stores[i].creator as int,
        ) >= r.stores[i].stamp() || (sc_rank is Some && r.stores[i].sc_rank is Some),
    ensures
        ordered(r.stores[i], r.new_store(t, sync, value, order, sc_rank, op_id)),
{
    let n = r.stores.len() as int;
    let s = r.stores[i];
    let causality = t.current().causality;
    let joined = r.store_join(causality, sc_rank is Some, n);
    let closed = closed_under_rmw(r.stores, joined, r.cnt as u16);
    assert(s.wf() && s.id < r.cnt);
    lemma_store_join_covers(r, causality, sc_rank is Some, n, i);
    lemma_closed(r.stores, joined, r.cnt as u16);
    VersionVec::below_is_partial_order(s.happens_before, s.modification_order, joined);
    VersionVec::below_is_partial_order(s.happens_before, joined, closed);
    assert(s.happens_before.at(s.creator as int) <= closed.at(s.creator as int));
}

/// Write-read coherence: a load that happens after a store returns no store
/// that is modification-order-before it. `later` are the threads when the
/// reader, which has heard of the store, loads.
pub proof fn reads_follow_what_was_written(
    r: RegionModel,
    t: ThreadsModel,
    s: Store,
    later: ThreadsModel,
    i: int,
    order: Order,
)
    requires
        r.wf(),
        t.running(),
        t.version() < u16::MAX,
        s.first_seen == FirstSeen::never().touched(t.me(), t.version()),
        0 <= i < r.appended(s).stores.len(),
        i != r.cnt % MAX_ATOMIC_HISTORY as int,
        ordered(r.appended(s).stores[i], s),
        later.current().causality.at(t.me()) >= t.version(),
    ensures
        r.appended(s).superseded(later, later.current().causality, order, i),
{
    let n = r.appended(s);
    let j = r.cnt % MAX_ATOMIC_HISTORY as int;
    let me = t.me();
    let view = later.current().causality;
    FirstSeen::lemma_never_at(me);
    FirstSeen::lemma_touched_at(FirstSeen::never(), me, t.version(), me);
    assert(n.stores[j] == s);
    assert(n.stores[j].first_seen.at(me) <= view.at(me));
    assert(n.stores[j].first_seen.seen_in(view));
}

proof fn lemma_readable_exact(
    r: RegionModel,
    t: ThreadsModel,
    view: VersionVec,
    order: Order,
    n: int,
    i: int,
)
    requires
        0 <= n <= r.stores.len() <= MAX_ATOMIC_HISTORY,
        0 <= i < MAX_ATOMIC_HISTORY,
    ensures
        r.readable(t, view, order, n).contains(i as u8) <==> i < n && !r.superseded(
            t,
            view,
            order,
            i,
        ),
    decreases n,
{
    if n > 0 {
        lemma_readable_exact(r, t, view, order, n - 1, i);
        let before = r.readable(t, view, order, n - 1);
        let all = r.readable(t, view, order, n);
        if !r.superseded(t, view, order, n - 1) {
            assert(all == before.push((n - 1) as u8));
            if i == n - 1 {
                assert(all[before.len() as int] == i as u8);
            } else if before.contains(i as u8) {
                let k = choose|k: int| 0 <= k < before.len() && before[k] == i as u8;
                assert(all[k] == i as u8);
            } else {
                assert(forall|k: int| 0 <= k < all.len() ==> all[k] != i as u8);
            }
        }
    }
}

/// A load may return exactly the stores that nothing rules out: no legal
/// weak outcome is missed, and no forbidden one is offered.
pub proof fn every_legal_store_is_offered(
    r: RegionModel,
    t: ThreadsModel,
    view: VersionVec,
    order: Order,
    i: int,
)
    requires
        r.wf(),
        0 <= i < r.stores.len(),
    ensures
        r.readable(t, view, order, r.stores.len() as int).contains(i as u8) <==> !r.superseded(
            t,
            view,
            order,
            i,
        ),
{
    lemma_readable_exact(r, t, view, order, r.stores.len() as int, i);
}

/// Release and acquire: a thread that reads a releasing store with an
/// acquiring order has from then on seen all that the writer had seen.
pub proof fn acquiring_learns_what_was_released(
    r: RegionModel,
    t: ThreadsModel,
    sync: Synchronize,
    value: u128,
    order: Order,
    sc_rank: Option<u32>,
    op_id: u64,
    reader: ThreadsModel,
    acquire: Order,
)
    requires
        order.publishes(),
        acquire.joins(),
        reader.running(),
    ensures
        t.current().causality.below(
            reader.synced(
                r.new_store(t, sync, value, order, sc_rank, op_id).sync.happens_before,
                acquire,
            ).current().causality,
        ),
{
    broadcast use VersionVec::lemma_joined_at;

}

/// A relaxed load learns nothing.
pub proof fn relaxed_reads_learn_nothing(t: ThreadsModel, view: VersionVec)
    ensures
        t.synced(view, Order::Relaxed) == t,
        t.synced(view, Order::Release) == t,
{
}

/// The write of a read-modify-write is modification-order-after the store that
/// it read.
pub proof fn rmw_write_follows_its_read(
    r: RegionModel,
    t: ThreadsModel,
    index: int,
    next: u128,
    success: Order,
    sc_rank: Option<u32>,
    op_id: u64,
)
    requires
        r.wf(),
        t.running(),
        timely(r, t),
        t.version() < u16::MAX,
        r.cnt < u16::MAX,
        0 <= index < r.stores.len(),
    ensures
        ({
            let n = r.read(t, index);
            let t1 = t.synced(n.stores[index].sync.happens_before, success);
            let w = n.rmw_committed(t1, index, next, success, sc_rank, op_id);
            let slot = r.cnt % MAX_ATOMIC_HISTORY as int;
            &&& ordered(n.stores[index], w.stores[slot])
            &&& w.stores[slot].value == next
            &&& w.stores[slot].rmw_read == Some(n.stores[index].as_read())
        }),
{
    broadcast use VersionVec::lemma_joined_at;

    let n = r.read(t, index);
    let t1 = t.synced(n.stores[index].sync.happens_before, success);
    let me = t.me();
    crate::rt::atomic::region::lemma_read_wf(r, t, index);
    FirstSeen::lemma_touched_at(r.stores[index].first_seen, me, t.version(), me);
    assert(r.stores[index].first_seen.at(me) == u16::MAX || r.stores[index].first_seen.at(me)
        <= t.version());
    assert(t1.current().causality.at(me) >= t.version());
    assert(n.stores[index].first_seen.at(me) != u16::MAX);
    assert(n.stores[index].first_seen.at(me) <= t1.current().causality.at(me));
    assert(n.stores[index].first_seen.seen_in(t1.current().causality));
    writes_follow_what_came_before(
        n,
        t1,
        n.stores[index].sync,
        next,
        success,
        sc_rank,
        op_id,
        index,
    );
}

/// A load in the scope of the sequentially consistent order never returns a
/// store that a ranked store within that scope supersedes.
pub proof fn ranked_stores_hide_what_they_supersede(
    r: RegionModel,
    t: ThreadsModel,
    view: VersionVec,
    order: Order,
    i: int,
    j: int,
)
    requires
        0 <= i < r.stores.len(),
        0 <= j < r.stores.len(),
        i != j,
        ordered(r.stores[i], r.stores[j]),
        in_scope(r.stores[j], sc_scope(t, order)),
    ensures
        r.superseded(t, view, order, i),
{
}

/// An initialization that precedes the execution is modification-order-before
/// every other store.
pub proof fn initialization_comes_first(value: u128, s: Store)
    requires
        s.id != 0,
    ensures
        ordered(pre_execution_store(value), s),
{
    VersionVec::lemma_zero_at(0);
}

// ----- wide operations -----
proof fn lemma_fixed_push(resolved: Seq<(u64, bool)>, entry: (u64, bool), op_id: u64, i: int)
    requires
        0 <= i <= resolved.len(),
    ensures
        fixed_for(resolved.push(entry), op_id, i) == match fixed_for(resolved, op_id, i) {
            Some(seen) => Some(seen),
            None => if entry.0 == op_id {
                Some(entry.1)
            } else {
                None
            },
        },
    decreases resolved.len() - i,
{
    let after = resolved.push(entry);
    if i < resolved.len() {
        assert(after[i] == resolved[i]);
        lemma_fixed_push(resolved, entry, op_id, i + 1);
    } else {
        assert(after[i] == entry);
        assert(fixed_for(after, op_id, i + 1) is None);
    }
}

pub proof fn lemma_resolved(
    r: RegionModel,
    c: int,
    resolved: Seq<(u64, bool)>,
    n: int,
    d: int,
    op_id: u64,
)
    requires
        0 <= n <= r.stores.len(),
        r.resolved_upto(c, resolved, n) is Some,
    ensures
        ({
            let after = r.resolved_upto(c, resolved, n)->Some_0;
            &&& 0 <= d < n ==> fixed_for(after, r.stores[d].op_id, 0) == Some(r.sees(c, d))
            &&& fixed_for(resolved, op_id, 0) is Some ==> fixed_for(after, op_id, 0) == fixed_for(
                resolved,
                op_id,
                0,
            )
        }),
    decreases n,
{
    if n > 0 {
        let before = r.resolved_upto(c, resolved, n - 1)->Some_0;
        lemma_resolved(r, c, resolved, n - 1, d, op_id);
        let entry = (r.stores[n - 1].op_id, r.sees(c, n - 1));
        if fixed_for(before, entry.0, 0) is None {
            lemma_fixed_push(before, entry, op_id, 0);
            if 0 <= d < n {
                lemma_fixed_push(before, entry, r.stores[d].op_id, 0);
            }
        }
    }
}

/// Single-copy atomicity: the regions of one load agree on every operation.
/// Where region `a` was resolved to slot `ca` and then region `b` to slot
/// `cb`, an operation that wrote both is seen through both or through neither,
/// so that no load returns a torn value.
pub proof fn wide_operations_are_seen_all_or_none(
    a: RegionModel,
    b: RegionModel,
    ca: int,
    cb: int,
    da: int,
    db: int,
    resolved: Seq<(u64, bool)>,
)
    requires
        0 <= da < a.stores.len(),
        0 <= db < b.stores.len(),
        a.stores[da].op_id == b.stores[db].op_id,
        a.resolve(ca, resolved) is Some,
        b.resolve(cb, a.resolve(ca, resolved)->Some_0) is Some,
    ensures
        a.sees(ca, da) == b.sees(cb, db),
{
    let after = a.resolve(ca, resolved)->Some_0;
    lemma_resolved(a, ca, resolved, a.stores.len() as int, da, 0);
    lemma_resolved(b, cb, after, b.stores.len() as int, db, a.stores[da].op_id);
}

// ----- values -----
proof fn lemma_bits(n: u128, o: u128, old: u128, v: u128, m: u128, mask: u128)
    ensures
        m & !mask == 0 ==> ((n & !mask) | (v & mask & o)) | (v & m) == ((n | (old & m)) & !mask) | (
        v & mask & (o | m)),
        m & mask == 0 ==> ((n & !mask) | (v & mask & o)) | (old & m) == ((n | (old & m)) & !mask)
            | (v & mask & (o | m)),
{
    assert(m & !mask == 0 ==> ((n & !mask) | (v & mask & o)) | (v & m) == ((n | (old & m)) & !mask)
        | (v & mask & (o | m))) by (bit_vector);
    assert(m & mask == 0 ==> ((n & !mask) | (v & mask & o)) | (old & m) == ((n | (old & m)) & !mask)
        | (v & mask & (o | m))) by (bit_vector);
}

/// The value of the newest store.
pub open spec fn top(r: RegionModel) -> u128 {
    r.stores[r.newest()].value
}

/// `y` is the region `x` after a write of `value` over `mask`, as far as its
/// newest value goes.
pub open spec fn laid_over(x: RegionModel, y: RegionModel, mask: u128, value: u128) -> bool {
    &&& y.mask == x.mask
    &&& top(y) == if x.mask & mask != 0 {
        value
    } else {
        top(x)
    }
}

/// The same of all regions of a cell.
pub open spec fn overlaid(
    a: Seq<RegionModel>,
    b: Seq<RegionModel>,
    mask: u128,
    value: u128,
) -> bool {
    &&& a.len() == b.len()
    &&& forall|i: int| 0 <= i < a.len() ==> laid_over(a[i], #[trigger] b[i], mask, value)
}

proof fn lemma_overlaid_bits(
    a: Seq<RegionModel>,
    b: Seq<RegionModel>,
    mask: u128,
    value: u128,
    n: int,
)
    requires
        overlaid(a, b, mask, value),
        0 <= n <= a.len(),
        forall|i: int| 0 <= i < a.len() ==> !straddles(#[trigger] a[i], mask),
    ensures
        newest_bits(b, n) == (newest_bits(a, n) & !mask) | (value & mask & owned(a, n)),
    decreases n,
{
    if n <= 0 {
        assert((0u128 & !mask) | (value & mask & 0u128) == 0) by (bit_vector);
    } else {
        lemma_overlaid_bits(a, b, mask, value, n - 1);
        let r = a[n - 1];
        assert(!straddles(r, mask));
        assert(laid_over(r, b[n - 1], mask, value));
        lemma_bits(newest_bits(a, n - 1), owned(a, n - 1), top(r), value, r.mask, mask);
    }
}

/// A write over `mask`, however it came about, changes the bits under the mask
/// to the value's and leaves every other bit of the cell as it was.
pub proof fn lemma_overlaid_value(s: StateModel, n: StateModel, mask: u128, value: u128)
    requires
        s.wf(),
        overlaid(s.regions, n.regions, mask, value),
        forall|i: int| 0 <= i < s.regions.len() ==> !straddles(#[trigger] s.regions[i], mask),
    ensures
        n.value() == (s.value() & !mask) | (value & mask),
{
    lemma_overlaid_bits(s.regions, n.regions, mask, value, s.regions.len() as int);
    let x = value & mask;
    assert(x & 0xffff_ffff_ffff_ffff_ffff_ffff_ffff_ffffu128 == x) by (bit_vector);
}

/// A masked store changes the bits under its mask to the value's and leaves
/// every other bit of the cell as it was.
pub proof fn store_writes_exactly_its_mask(
    s: StateModel,
    t: ThreadsModel,
    mask: u128,
    value: u128,
    order: Order,
    sc_rank: Option<u32>,
    op_id: u64,
)
    requires
        s.wf(),
        forall|i: int| 0 <= i < s.regions.len() ==> !straddles(#[trigger] s.regions[i], mask),
    ensures
        s.stored(t, mask, value, order, sc_rank, op_id).value() == (s.value() & !mask) | (value
            & mask),
{
    let n = s.stored(t, mask, value, order, sc_rank, op_id);
    assert forall|i: int| 0 <= i < s.regions.len() implies laid_over(
        s.regions[i],
        #[trigger] n.regions[i],
        mask,
        value,
    ) by {
        let r = s.regions[i];
        assert(r.wf());
        let w = r.new_store(t, Synchronize::empty(), value, order, sc_rank, op_id);
        assert(r.appended(w).newest() == r.cnt % MAX_ATOMIC_HISTORY as int);
    }
    lemma_overlaid_value(s, n, mask, value);
}

proof fn lemma_overwritten_bits(s: StateModel, value: u128, n: int)
    requires
        s.wf(),
        0 <= n <= s.regions.len(),
    ensures
        newest_bits(s.overwritten(value).regions, n) == value & owned(s.regions, n),
    decreases n,
{
    if n <= 0 {
        assert(value & 0u128 == 0) by (bit_vector);
    } else {
        lemma_overwritten_bits(s, value, n - 1);
        let r = s.regions[n - 1];
        assert(r.wf());
        let o = owned(s.regions, n - 1);
        let m = r.mask;
        assert((value & o) | (value & m) == value & (o | m)) by (bit_vector);
        assert(s.overwritten(value).regions[n - 1] == r.overwritten(value));
    }
}

/// What a mutable access leaves in a cell is what the next unsynchronized
/// read finds.
pub proof fn overwriting_gives_the_value_back(s: StateModel, value: u128)
    requires
        s.wf(),
    ensures
        s.overwritten(value).value() == value,
{
    lemma_overwritten_bits(s, value, s.regions.len() as int);
    assert(value & 0xffff_ffff_ffff_ffff_ffff_ffff_ffff_ffffu128 == value) by (bit_vector);
}

proof fn lemma_newest_prefix(a: Seq<RegionModel>, b: Seq<RegionModel>, n: int)
    requires
        0 <= n <= a.len(),
        n <= b.len(),
        forall|i: int| 0 <= i < n ==> #[trigger] a[i] == b[i],
    ensures
        newest_bits(a, n) == newest_bits(b, n),
    decreases n,
{
    if n > 0 {
        lemma_newest_prefix(a, b, n - 1);
        assert(a[n - 1] == b[n - 1]);
    }
}

proof fn lemma_newest_cut(a: Seq<RegionModel>, k: int, mask: u128, n: int)
    requires
        0 <= k < n <= a.len(),
    ensures
        ({
            let r = a[k];
            let v = r.stores[r.newest()].value;
            newest_bits(a.update(k, RegionModel { mask: r.mask & mask, ..r }), n) | (v & (r.mask
                & !mask)) == newest_bits(a, n)
        }),
    decreases n,
{
    let r = a[k];
    let v = r.stores[r.newest()].value;
    let m = r.mask;
    let b = a.update(k, RegionModel { mask: m & mask, ..r });
    if n - 1 == k {
        lemma_newest_prefix(a, b, n - 1);
        let x = newest_bits(a, n - 1);
        assert((x | (v & (m & mask))) | (v & (m & !mask)) == x | (v & m)) by (bit_vector);
    } else {
        lemma_newest_cut(a, k, mask, n - 1);
        let x = newest_bits(b, n - 1);
        let y = v & (m & !mask);
        let z = a[n - 1].stores[a[n - 1].newest()].value & a[n - 1].mask;
        assert((x | z) | y == (x | y) | z) by (bit_vector);
    }
}

proof fn lemma_cut_value(regions: Seq<RegionModel>, mask: u128, n: int)
    requires
        0 <= n <= regions.len(),
    ensures
        cut_upto(regions, mask, n).len() >= regions.len(),
        forall|i: int| n <= i < regions.len() ==> #[trigger] cut_upto(regions, mask, n)[i]
            == regions[i],
        newest_bits(
            cut_upto(regions, mask, n),
            cut_upto(regions, mask, n).len() as int,
        ) == newest_bits(regions, regions.len() as int),
    decreases n,
{
    if n > 0 {
        lemma_cut_value(regions, mask, n - 1);
        let b = cut_upto(regions, mask, n - 1);
        let r = regions[n - 1];
        assert(b[n - 1] == r);
        if straddles(r, mask) {
            let u = b.update(n - 1, RegionModel { mask: r.mask & mask, ..r });
            let c = cut_upto(regions, mask, n);
            lemma_newest_cut(b, n - 1, mask, b.len() as int);
            lemma_newest_prefix(u, c, u.len() as int);
            assert(c.last() == RegionModel { mask: r.mask & !mask, ..r });
        }
    }
}

/// Splitting a region changes no value: both halves inherit the same past.
pub proof fn splitting_changes_no_value(s: StateModel, mask: u128)
    ensures
        s.partitioned(mask).value() == s.value(),
{
    lemma_cut_value(s.regions, mask, s.regions.len() as int);
}

/// Operations on disjoint lanes do not depend on each other.
pub proof fn disjoint_lanes_do_not_conflict(a: Action, b: Action)
    requires
        a.touches() & b.touches() == 0,
    ensures
        !a.conflicts(b),
{
    let (ar, aw, br, bw) = (a.reads(), a.writes(), b.reads(), b.writes());
    assert((ar | aw) & (br | bw) == 0 ==> aw & br == 0 && ar & bw == 0 && aw & bw == 0)
        by (bit_vector);
}

} // verus!
