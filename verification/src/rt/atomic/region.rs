//! One sub-word region of a cell: a bit mask and the store history over just
//! those bits.
use vstd::array::spec_array_update;
use vstd::prelude::*;

use crate::rt::access::{Access, Accesses};
use crate::rt::atomic::store::{
    closed_under_rmw, close_rmw_atomicity, lemma_closed, mo_before, ordered, stamp_mo_before,
    stamp_ordered, FirstSeen, RmwRead, Store,
};
use crate::rt::bits;
use crate::rt::order::{is_seq_cst, Order};
use crate::rt::small::{resolved_get, resolved_len, resolved_push, resolved_truncate, Resolved};
use crate::rt::synchronize::Synchronize;
use crate::rt::thread::{Threads, ThreadsModel};
use crate::rt::vv::VersionVec;
use crate::rt::{MAX_ATOMIC_HISTORY, MAX_THREADS};

verus! {

/// A wide operation that **compared** this region's bits and wrote them back
/// verbatim, recorded without a store of its own.
///
/// Write `s` for the store the operation read here and `s'` for the identity
/// write it would have appended. Nothing can be inserted between them, and
/// `s'` carries `s`'s value, so the pair is one run of equal bits.
///
/// **The coherence floor is exact in value.** Seeing the operation through a
/// written region must stop this lane reading older than what the operation
/// left here: candidates before `s` are dropped, and `s` itself stays.
///
/// **All-or-none visibility is vacuous here**: a lane the operation wrote back
/// verbatim cannot tear.
///
/// **Being seen *through* this lane resolves strictly**: only a candidate
/// strictly after `s` witnesses the operation.
///
/// **The residual.** The record does not carry the release of `s'`: an
/// acquiring read of this lane can no longer synchronize with the operation
/// through these bits. Reaching that is a fault, not silence.
#[derive(Debug, Clone, Copy)]
pub struct PreservedOp {
    /// The operation's `Store::op_id` in the regions it *did* write.
    pub op_id: u64,
    /// Creation stamp of the store the operation read here.
    pub read: RmwRead,
    /// The bits the operation *did* write, so a reader that also covers one of
    /// those regions is known to still have a route to its release.
    pub write_mask: u128,
    /// Lane index of the thread that ran the operation. It cannot lose a
    /// release it published itself.
    pub creator: usize,
}

/// Where one store operation sits in one region's modification order.
#[derive(Debug, Clone, Copy)]
pub enum OpPin {
    /// The operation wrote this region; the slot holding its store.
    Wrote(usize),
    /// The operation preserved this region; the creation stamp of the store it
    /// read.
    Preserved(RmwRead),
}

/// One sub-word region of a cell.
pub struct Region {
    /// The bits of the cell this region owns. Regions of one cell partition
    /// the whole 128-bit width.
    pub mask: u128,
    /// Currently tracked stores: the `MAX_ATOMIC_HISTORY` most recent ones in
    /// execution order. A new store takes the next slot, and once the ring is
    /// full the slot of the oldest one.
    pub stores: Vec<Store>,
    /// The total number of stores to the region.
    pub cnt: u16,
    /// Last time each thread accessed **this region**.
    pub last_access: Accesses,
    /// Last time each thread accessed this region with a store or a
    /// read-modify-write.
    pub last_non_load_access: Accesses,
    /// Wide operations that compared these bits and wrote them back verbatim:
    /// a ring of the same depth as `stores`.
    pub preserved: Vec<PreservedOp>,
    /// Total number of preserving operations over this region.
    pub preserved_cnt: u16,
    /// Threads that have read these bits, since a preserving operation landed,
    /// with an operation covering none of the regions it wrote. A later
    /// acquire fence in the same thread would consume a release the elided
    /// identity write no longer offers, so the fence traps on this set.
    pub unrouted_readers: u16,
    /// Threads that have read these bits at all.
    pub readers: u16,
    /// Threads that have read these bits while acquiring.
    pub acquiring_readers: u16,
}

/// What a region is.
#[verifier::ext_equal]
pub struct RegionModel {
    pub mask: u128,
    pub stores: Seq<Store>,
    pub cnt: int,
    pub last_access: Accesses,
    pub last_non_load_access: Accesses,
    pub preserved: Seq<PreservedOp>,
    pub preserved_cnt: int,
    pub unrouted_readers: u16,
    pub readers: u16,
    pub acquiring_readers: u16,
}

impl View for Region {
    type V = RegionModel;

    open spec fn view(&self) -> RegionModel {
        RegionModel {
            mask: self.mask,
            stores: self.stores@,
            cnt: self.cnt as int,
            last_access: self.last_access,
            last_non_load_access: self.last_non_load_access,
            preserved: self.preserved@,
            preserved_cnt: self.preserved_cnt as int,
            unrouted_readers: self.unrouted_readers,
            readers: self.readers,
            acquiring_readers: self.acquiring_readers,
        }
    }
}

/// The number of live slots of a ring that `cnt` entries went through.
pub open spec fn live(cnt: int) -> int {
    if cnt < MAX_ATOMIC_HISTORY {
        cnt
    } else {
        MAX_ATOMIC_HISTORY as int
    }
}

/// A ring after one more entry.
pub open spec fn ring_pushed<T>(ring: Seq<T>, cnt: int, entry: T) -> Seq<T> {
    if cnt < MAX_ATOMIC_HISTORY {
        ring.push(entry)
    } else {
        ring.update(cnt % MAX_ATOMIC_HISTORY as int, entry)
    }
}

/// No thread has accessed the region.
pub open spec fn no_accesses() -> Accesses {
    [None, None, None, None, None]
}

/// How far into the order of sequentially consistent operations a load must
/// respect it: all of it for a `SeqCst` load, up to the thread's last `SeqCst`
/// fence otherwise.
pub open spec fn sc_scope(t: ThreadsModel, order: Order) -> Option<u32> {
    if order == Order::SeqCst {
        Some(u32::MAX)
    } else {
        t.current().sc_fence_pos
    }
}

/// The store takes part in the sequentially consistent order within `scope`.
pub open spec fn in_scope(s: Store, scope: Option<u32>) -> bool {
    match (scope, s.sc_rank) {
        (Some(limit), Some(rank)) => rank <= limit,
        _ => false,
    }
}

/// The visibility already fixed for an operation: the first entry for it.
pub open spec fn fixed_for(resolved: Seq<(u64, bool)>, op_id: u64, i: int) -> Option<bool>
    decreases resolved.len() - i,
{
    if i >= resolved.len() {
        None
    } else if resolved[i].0 == op_id {
        Some(resolved[i].1)
    } else {
        fixed_for(resolved, op_id, i + 1)
    }
}

impl RegionModel {
    pub open spec fn wf(self) -> bool {
        &&& 0 < self.cnt <= u16::MAX
        &&& self.stores.len() == live(self.cnt)
        &&& 0 <= self.preserved_cnt <= u16::MAX
        &&& self.preserved.len() == live(self.preserved_cnt)
        &&& forall|i: int|
            0 <= i < self.stores.len() ==> {
                let s = #[trigger] self.stores[i];
                s.wf() && s.id < self.cnt && s.id as int % MAX_ATOMIC_HISTORY as int == i
            }
        &&& forall|i: int|
            0 <= i < self.preserved.len() ==> (#[trigger] self.preserved[i]).read.creator
                < MAX_THREADS
    }

    /// A region that owns `mask` and holds no store.
    pub open spec fn blank(mask: u128) -> RegionModel {
        RegionModel {
            mask,
            stores: Seq::empty(),
            cnt: 0,
            last_access: no_accesses(),
            last_non_load_access: no_accesses(),
            preserved: Seq::empty(),
            preserved_cnt: 0,
            unrouted_readers: 0,
            readers: 0,
            acquiring_readers: 0,
        }
    }

    /// The slot of the newest store.
    pub open spec fn newest(self) -> int {
        (self.cnt - 1) % MAX_ATOMIC_HISTORY as int
    }

    // ----- accesses -----
    /// The accesses that an operation of this kind depends on: a load depends
    /// on each thread's last write, a write on each thread's last access.
    pub open spec fn dependent(self, is_load: bool) -> Accesses {
        if is_load {
            self.last_non_load_access
        } else {
            self.last_access
        }
    }

    /// The region after thread `t` accessed it.
    pub open spec fn accessed(self, is_load: bool, t: int, access: Access) -> RegionModel {
        RegionModel {
            last_access: spec_array_update(self.last_access, t, Some(access)),
            last_non_load_access: if is_load {
                self.last_non_load_access
            } else {
                spec_array_update(self.last_non_load_access, t, Some(access))
            },
            ..self
        }
    }

    // ----- reading -----
    /// Some store is known to be after slot `i` and rules it out: it is ranked
    /// within the load's scope, or the reader has seen it, or the reader saw
    /// slot `i` before its last yield and must advance.
    pub open spec fn superseded(
        self,
        t: ThreadsModel,
        view: VersionVec,
        order: Order,
        i: int,
    ) -> bool {
        exists|j: int|
            0 <= j < self.stores.len() && j != i && ordered(
                self.stores[i],
                #[trigger] self.stores[j],
            ) && (in_scope(self.stores[j], sc_scope(t, order))
                || self.stores[j].first_seen.seen_in(view)
                || self.stores[i].first_seen.seen_before_yield(t))
    }

    /// The slots below `n` that a load may return, in order.
    pub open spec fn readable(
        self,
        t: ThreadsModel,
        view: VersionVec,
        order: Order,
        n: int,
    ) -> Seq<u8>
        decreases n,
    {
        if n <= 0 {
            Seq::empty()
        } else {
            let before = self.readable(t, view, order, n - 1);
            if self.superseded(t, view, order, n - 1) {
                before
            } else {
                before.push((n - 1) as u8)
            }
        }
    }

    /// Some store is known to be after slot `i`.
    pub open spec fn succeeded(self, i: int) -> bool {
        exists|j: int|
            0 <= j < self.stores.len() && j != i && ordered(
                self.stores[i],
                #[trigger] self.stores[j],
            )
    }

    /// The slots below `n` that a read-modify-write may read: those with no
    /// known successor.
    pub open spec fn maximal(self, n: int) -> Seq<u8>
        decreases n,
    {
        if n <= 0 {
            Seq::empty()
        } else {
            let before = self.maximal(n - 1);
            if self.succeeded(n - 1) {
                before
            } else {
                before.push((n - 1) as u8)
            }
        }
    }

    /// The modification order of slot `index` joined with those of the first
    /// `n` other stores that the reader has seen or that happened before it.
    pub open spec fn coherence_join(self, causality: VersionVec, index: int, n: int) -> VersionVec
        decreases n,
    {
        if n <= 0 {
            self.stores[index].modification_order
        } else {
            let before = self.coherence_join(causality, index, n - 1);
            let s = self.stores[n - 1];
            if n - 1 != index && (s.first_seen.seen_in(causality)
                || s.happens_before.strictly_below(causality)) {
                before.joined(s.modification_order)
            } else {
                before
            }
        }
    }

    /// The region after the read coherence of slot `index` was applied.
    pub open spec fn coherent(self, t: ThreadsModel, index: int) -> RegionModel {
        let joined = self.coherence_join(
            t.current().causality,
            index,
            self.stores.len() as int,
        );
        let s = self.stores[index];
        RegionModel {
            stores: self.stores.update(
                index,
                Store { modification_order: closed_under_rmw(self.stores, joined, s.id), ..s },
            ),
            ..self
        }
    }

    /// The region after the active thread read slot `index`.
    pub open spec fn read(self, t: ThreadsModel, index: int) -> RegionModel {
        let c = self.coherent(t, index);
        let s = c.stores[index];
        RegionModel {
            stores: c.stores.update(
                index,
                Store { first_seen: s.first_seen.touched(t.me(), t.version()), ..s },
            ),
            ..c
        }
    }

    // ----- writing -----
    /// The modification order of a new store by a thread that has seen
    /// `causality`, joined with those of the first `n` stores known to be
    /// before it: seen, happened before, or (for a sequentially consistent
    /// store) ranked.
    pub open spec fn store_join(self, causality: VersionVec, sc: bool, n: int) -> VersionVec
        decreases n,
    {
        if n <= 0 {
            causality
        } else {
            let before = self.store_join(causality, sc, n - 1);
            let s = self.stores[n - 1];
            if s.first_seen.seen_in(causality) || causality.at(s.creator as int) >= s.stamp() || (sc
                && s.sc_rank is Some) {
                before.joined(s.modification_order)
            } else {
                before
            }
        }
    }

    /// The store that the active thread appends.
    pub open spec fn new_store(
        self,
        t: ThreadsModel,
        sync: Synchronize,
        value: u128,
        order: Order,
        sc_rank: Option<u32>,
        op_id: u64,
    ) -> Store {
        let causality = t.current().causality;
        Store {
            value,
            happens_before: causality,
            modification_order: closed_under_rmw(
                self.stores,
                self.store_join(causality, sc_rank is Some, self.stores.len() as int),
                self.cnt as u16,
            ),
            id: self.cnt as u16,
            op_id,
            creator: t.me() as usize,
            rmw_read: None,
            sync: sync.stored(t, order),
            first_seen: FirstSeen::never().touched(t.me(), t.version()),
            sc_rank,
        }
    }

    /// The region with one more store.
    pub open spec fn appended(self, s: Store) -> RegionModel {
        RegionModel {
            stores: ring_pushed(self.stores, self.cnt, s),
            cnt: self.cnt + 1,
            ..self
        }
    }

    /// The region after the active thread wrote `next` in a read-modify-write
    /// that read slot `index`: the write inherits the release view of what it
    /// read, which makes a release sequence. `t` are the threads after the
    /// read was synchronized.
    pub open spec fn rmw_committed(
        self,
        t: ThreadsModel,
        index: int,
        next: u128,
        success: Order,
        sc_rank: Option<u32>,
        op_id: u64,
    ) -> RegionModel {
        let s = self.stores[index];
        self.appended(
            Store {
                rmw_read: Some(s.as_read()),
                ..self.new_store(t, s.sync, next, success, sc_rank, op_id)
            },
        )
    }

    /// The region with a preserving operation of the active thread recorded.
    pub open spec fn preserving(
        self,
        t: ThreadsModel,
        index: int,
        op_id: u64,
        write_mask: u128,
    ) -> RegionModel {
        RegionModel {
            preserved: ring_pushed(
                self.preserved,
                self.preserved_cnt,
                PreservedOp {
                    op_id,
                    read: self.stores[index].as_read(),
                    write_mask,
                    creator: t.me() as usize,
                },
            ),
            preserved_cnt: self.preserved_cnt + 1,
            ..self
        }
    }

    /// The region with the newest value overwritten in place.
    pub open spec fn overwritten(self, value: u128) -> RegionModel {
        RegionModel {
            stores: self.stores.update(
                self.newest(),
                Store { value, ..self.stores[self.newest()] },
            ),
            ..self
        }
    }

    /// The region with the stores of thread `creator` ranked at `pos`.
    pub open spec fn promoted(self, creator: int, pos: u32) -> RegionModel {
        RegionModel {
            stores: self.stores.map_values(
                |s: Store|
                    if s.creator == creator && s.sc_rank is None {
                        Store { sc_rank: Some(pos), ..s }
                    } else {
                        s
                    },
            ),
            ..self
        }
    }

    // ----- wide operations -----
    /// Reading slot `c` sees the operation that wrote slot `d`.
    pub open spec fn sees(self, c: int, d: int) -> bool {
        self.stores[c].id == self.stores[d].id || ordered(self.stores[d], self.stores[c])
    }

    /// The visibility fixed so far, extended with what reading slot `c`
    /// implies for the operations of the first `n` slots; `None` where they
    /// disagree.
    pub open spec fn resolved_upto(
        self,
        c: int,
        resolved: Seq<(u64, bool)>,
        n: int,
    ) -> Option<Seq<(u64, bool)>>
        decreases n,
    {
        if n <= 0 {
            Some(resolved)
        } else {
            match self.resolved_upto(c, resolved, n - 1) {
                None => None,
                Some(before) => {
                    let op_id = self.stores[n - 1].op_id;
                    match fixed_for(before, op_id, 0) {
                        Some(seen) => if seen == self.sees(c, n - 1) {
                            Some(before)
                        } else {
                            None
                        },
                        None => Some(before.push((op_id, self.sees(c, n - 1)))),
                    }
                },
            }
        }
    }

    /// The visibility after reading slot `c`.
    ///
    /// The rule is single-copy atomicity: a wide operation's stores are seen
    /// all-or-none, so every region of one load must agree on whether it sees
    /// the operation.
    pub open spec fn resolve(self, c: int, resolved: Seq<(u64, bool)>) -> Option<
        Seq<(u64, bool)>,
    > {
        self.resolved_upto(c, resolved, self.stores.len() as int)
    }

    /// The first slot from `i` on that holds a store of operation `op_id`.
    pub open spec fn op_slot(self, op_id: u64, i: int) -> Option<int>
        decreases self.stores.len() - i,
    {
        if i >= self.stores.len() {
            None
        } else if self.stores[i].op_id == op_id {
            Some(i)
        } else {
            self.op_slot(op_id, i + 1)
        }
    }

    /// The first slot from `i` on that holds the store `id`.
    pub open spec fn store_slot(self, id: u16, i: int) -> Option<int>
        decreases self.stores.len() - i,
    {
        if i >= self.stores.len() {
            None
        } else if self.stores[i].id == id {
            Some(i)
        } else {
            self.store_slot(id, i + 1)
        }
    }

    /// The first preserving record from `i` on of operation `op_id`.
    pub open spec fn op_record(self, op_id: u64, i: int) -> Option<int>
        decreases self.preserved.len() - i,
    {
        if i >= self.preserved.len() {
            None
        } else if self.preserved[i].op_id == op_id {
            Some(i)
        } else {
            self.op_record(op_id, i + 1)
        }
    }

    /// Where operation `op_id` sits in this region's modification order.
    pub open spec fn pin(self, op_id: u64) -> Option<OpPin> {
        match self.op_slot(op_id, 0) {
            Some(slot) => Some(OpPin::Wrote(slot as usize)),
            None => match self.op_record(op_id, 0) {
                Some(i) => Some(OpPin::Preserved(self.preserved[i].read)),
                None => None,
            },
        }
    }

    /// Reading slot `c` implies having seen the operation pinned at `pin`.
    pub open spec fn pin_seen(self, pin: OpPin, c: int) -> bool {
        match pin {
            OpPin::Wrote(slot) => self.sees(c, slot as int),
            OpPin::Preserved(read) => stamp_ordered(read, self.stores[c]),
        }
    }
}

pub proof fn lemma_readable(r: RegionModel, t: ThreadsModel, view: VersionVec, order: Order, n: int)
    requires
        0 <= n <= MAX_ATOMIC_HISTORY,
    ensures
        r.readable(t, view, order, n).len() <= n,
        forall|k: int|
            0 <= k < r.readable(t, view, order, n).len() ==> (#[trigger] r.readable(
                t,
                view,
                order,
                n,
            )[k]) < n,
    decreases n,
{
    if n > 0 {
        lemma_readable(r, t, view, order, n - 1);
    }
}

pub proof fn lemma_maximal(r: RegionModel, n: int)
    requires
        0 <= n <= MAX_ATOMIC_HISTORY,
    ensures
        r.maximal(n).len() <= n,
        forall|k: int| 0 <= k < r.maximal(n).len() ==> (#[trigger] r.maximal(n)[k]) < n,
    decreases n,
{
    if n > 0 {
        lemma_maximal(r, n - 1);
    }
}

pub proof fn lemma_coherence_join(r: RegionModel, causality: VersionVec, index: int, n: int)
    requires
        0 <= index < r.stores.len(),
        0 <= n <= r.stores.len(),
    ensures
        r.stores[index].modification_order.below(r.coherence_join(causality, index, n)),
    decreases n,
{
    let mo = r.stores[index].modification_order;
    VersionVec::below_is_partial_order(mo, mo, mo);
    if n > 0 {
        let before = r.coherence_join(causality, index, n - 1);
        let s = r.stores[n - 1].modification_order;
        lemma_coherence_join(r, causality, index, n - 1);
        VersionVec::join_is_least_upper_bound(before, s, s);
        VersionVec::below_is_partial_order(mo, before, before.joined(s));
    }
}

proof fn lemma_store_join(r: RegionModel, causality: VersionVec, sc: bool, n: int)
    requires
        0 <= n <= r.stores.len(),
    ensures
        causality.below(r.store_join(causality, sc, n)),
    decreases n,
{
    VersionVec::below_is_partial_order(causality, causality, causality);
    if n > 0 {
        let before = r.store_join(causality, sc, n - 1);
        let s = r.stores[n - 1].modification_order;
        lemma_store_join(r, causality, sc, n - 1);
        VersionVec::join_is_least_upper_bound(before, s, s);
        VersionVec::below_is_partial_order(causality, before, before.joined(s));
    }
}

/// A read keeps the region valid.
pub proof fn lemma_read_wf(r: RegionModel, t: ThreadsModel, index: int)
    requires
        r.wf(),
        0 <= index < r.stores.len(),
    ensures
        r.coherent(t, index).wf(),
        r.read(t, index).wf(),
{
    let causality = t.current().causality;
    let n = r.stores.len() as int;
    let s = r.stores[index];
    let joined = r.coherence_join(causality, index, n);
    let closed = closed_under_rmw(r.stores, joined, s.id);
    assert(s.wf());
    lemma_coherence_join(r, causality, index, n);
    lemma_closed(r.stores, joined, s.id);
    VersionVec::below_is_partial_order(s.happens_before, s.modification_order, joined);
    VersionVec::below_is_partial_order(s.happens_before, joined, closed);
}

/// A write keeps the region valid.
pub proof fn lemma_appended_wf(
    r: RegionModel,
    t: ThreadsModel,
    sync: Synchronize,
    value: u128,
    order: Order,
    sc_rank: Option<u32>,
    op_id: u64,
    rmw_read: Option<RmwRead>,
)
    requires
        r.wf() || r.cnt == 0 && r.stores.len() == 0 && r.preserved.len() == 0 && r.preserved_cnt
            == 0,
        r.cnt < u16::MAX,
        t.running(),
        rmw_read matches Some(x) ==> x.creator < MAX_THREADS,
    ensures
        r.appended(
            Store { rmw_read, ..r.new_store(t, sync, value, order, sc_rank, op_id) },
        ).wf(),
{
    let causality = t.current().causality;
    let n = r.stores.len() as int;
    let joined = r.store_join(causality, sc_rank is Some, n);
    let closed = closed_under_rmw(r.stores, joined, r.cnt as u16);
    lemma_store_join(r, causality, sc_rank is Some, n);
    lemma_closed(r.stores, joined, r.cnt as u16);
    VersionVec::below_is_partial_order(causality, joined, closed);
}

proof fn lemma_accesses_ext(a: Accesses, b: Accesses)
    requires
        forall|i: int| 0 <= i < MAX_THREADS ==> #[trigger] a@[i] == b@[i],
    ensures
        a == b,
{
    assert forall|i: int| 0 <= i < MAX_THREADS implies #[trigger] a[i] == b[i] by {
        assert(a@[i] == b@[i]);
    }
    assert(a =~= b);
}

/// A copy of the stores.
fn copy_stores(stores: &Vec<Store>) -> (r: Vec<Store>)
    ensures
        r@ == stores@,
{
    let mut out: Vec<Store> = Vec::new();
    let mut i: usize = 0;
    while i < stores.len()
        invariant
            i <= stores@.len(),
            out@ == stores@.take(i as int),
        decreases stores.len() - i,
    {
        out.push(stores[i]);
        i += 1;
        assert(out@ =~= stores@.take(i as int));
    }
    assert(out@ =~= stores@);
    out
}

/// A copy of the preserving records.
fn copy_preserved(preserved: &Vec<PreservedOp>) -> (r: Vec<PreservedOp>)
    ensures
        r@ == preserved@,
{
    let mut out: Vec<PreservedOp> = Vec::new();
    let mut i: usize = 0;
    while i < preserved.len()
        invariant
            i <= preserved@.len(),
            out@ == preserved@.take(i as int),
        decreases preserved.len() - i,
    {
        out.push(preserved[i]);
        i += 1;
        assert(out@ =~= preserved@.take(i as int));
    }
    assert(out@ =~= preserved@);
    out
}

/// The ring slot of the entry that `cnt` entries precede.
pub fn index(cnt: u16) -> (r: usize)
    ensures
        r == cnt as int % MAX_ATOMIC_HISTORY as int,
        r < MAX_ATOMIC_HISTORY,
{
    (cnt as usize) % MAX_ATOMIC_HISTORY
}

impl Region {
    pub fn new(mask: u128) -> (r: Region)
        ensures
            r@ == RegionModel::blank(mask),
    {
        let none: Accesses = [None;MAX_THREADS];
        proof {
            lemma_accesses_ext(none, no_accesses());
        }
        Region {
            mask,
            stores: Vec::new(),
            cnt: 0,
            last_access: none,
            last_non_load_access: none,
            preserved: Vec::new(),
            preserved_cnt: 0,
            unrouted_readers: 0,
            readers: 0,
            acquiring_readers: 0,
        }
    }

    /// Reset to an empty region owning `mask`, keeping the allocations.
    pub fn reset(&mut self, mask: u128)
        ensures
            final(self)@ == RegionModel::blank(mask),
    {
        let none: Accesses = [None;MAX_THREADS];
        proof {
            lemma_accesses_ext(none, no_accesses());
        }
        self.mask = mask;
        self.stores.clear();
        self.cnt = 0;
        self.last_access = none;
        self.last_non_load_access = none;
        self.preserved.clear();
        self.preserved_cnt = 0;
        self.unrouted_readers = 0;
        self.readers = 0;
        self.acquiring_readers = 0;
    }

    /// Keep the `keep_mask` bits of this region in place; split the remaining
    /// bits into a new region that inherits a full copy of the history, the
    /// access records and the preserving records. Both halves start perfectly
    /// coherent and diverge only as later masked operations touch one but not
    /// the other.
    ///
    /// `spare` recycles a region that is no longer in use.
    pub fn split_off(&mut self, keep_mask: u128, spare: Option<Region>) -> (r: Region)
        ensures
            final(self)@ == (RegionModel { mask: old(self)@.mask & keep_mask, ..old(self)@ }),
            r@ == (RegionModel { mask: old(self)@.mask & !keep_mask, ..old(self)@ }),
    {
        let other_mask: u128 = self.mask & !keep_mask;
        self.mask = self.mask & keep_mask;
        let stores: Vec<Store> = copy_stores(&self.stores);
        let preserved: Vec<PreservedOp> = copy_preserved(&self.preserved);
        match spare {
            Some(region) => {
                let mut region: Region = region;
                region.mask = other_mask;
                region.cnt = self.cnt;
                region.stores = stores;
                region.last_access = self.last_access;
                region.last_non_load_access = self.last_non_load_access;
                region.preserved = preserved;
                region.preserved_cnt = self.preserved_cnt;
                region.unrouted_readers = self.unrouted_readers;
                region.readers = self.readers;
                region.acquiring_readers = self.acquiring_readers;
                region
            },
            None => Region {
                mask: other_mask,
                stores,
                cnt: self.cnt,
                last_access: self.last_access,
                last_non_load_access: self.last_non_load_access,
                preserved,
                preserved_cnt: self.preserved_cnt,
                unrouted_readers: self.unrouted_readers,
                readers: self.readers,
                acquiring_readers: self.acquiring_readers,
            },
        }
    }

    /// Record a thread's last access to this region.
    pub fn set_last_access(
        &mut self,
        is_load: bool,
        thread_id: usize,
        path_id: usize,
        version: &VersionVec,
    )
        requires
            thread_id < MAX_THREADS,
        ensures
            final(self)@ == old(self)@.accessed(
                is_load,
                thread_id as int,
                Access { path_id, dpor_vv: *version },
            ),
    {
        let access = Access { path_id, dpor_vv: *version };
        let mut table: Accesses = self.last_access;
        table[thread_id] = Some(access);
        proof {
            lemma_accesses_ext(
                table,
                spec_array_update(self.last_access, thread_id as int, Some(access)),
            );
        }
        self.last_access = table;
        if !is_load {
            let mut table: Accesses = self.last_non_load_access;
            table[thread_id] = Some(access);
            proof {
                lemma_accesses_ext(
                    table,
                    spec_array_update(self.last_non_load_access, thread_id as int, Some(access)),
                );
            }
            self.last_non_load_access = table;
        }
    }

    /// The accesses that an operation of this kind depends on.
    pub fn dependent_accesses(&self, is_load: bool) -> (r: Accesses)
        ensures
            r == self@.dependent(is_load),
    {
        if is_load {
            self.last_non_load_access
        } else {
            self.last_access
        }
    }

    fn apply_load_coherence(&mut self, threads: &Threads, index: usize)
        requires
            old(self)@.wf(),
            threads@.running(),
            index < old(self)@.stores.len(),
        ensures
            final(self)@ == old(self)@.coherent(threads@, index as int),
            final(self)@.wf(),
    {
        proof {
            lemma_read_wf(self@, threads@, index as int);
        }
        let causality: VersionVec = threads.causality();
        let mut mo: VersionVec = self.stores[index].modification_order;
        let mut i: usize = 0;
        while i < self.stores.len()
            invariant
                self@ == old(self)@,
                i <= self@.stores.len(),
                index < self@.stores.len(),
                causality == threads@.current().causality,
                threads@.running(),
                mo == self@.coherence_join(causality, index as int, i as int),
            decreases self.stores.len() - i,
        {
            if index != i {
                let other: Store = self.stores[i];
                // READ-READ coherence, and WRITE-READ coherence
                if other.first_seen.is_seen_in(&causality) || (other.happens_before.is_le(
                    &causality,
                ) && !causality.is_le(&other.happens_before)) {
                    mo.join(&other.modification_order);
                }
            }
            i += 1;
        }
        // The joins above may have taught the read store that it is after some
        // store that a read-modify-write read: it is after its write as well.
        let mut store: Store = self.stores[index];
        close_rmw_atomicity(&self.stores, &mut mo, store.id);
        store.modification_order = mo;
        self.stores[index] = store;
        assert(self@ =~= old(self)@.coherent(threads@, index as int));
    }

    /// Read slot `index`: apply coherence, and mark the store seen.
    pub fn rmw_read(&mut self, threads: &Threads, index: usize) -> (r: u128)
        requires
            old(self)@.wf(),
            threads@.running(),
            index < old(self)@.stores.len(),
        ensures
            final(self)@ == old(self)@.read(threads@, index as int),
            final(self)@.wf(),
            r == old(self)@.stores[index as int].value,
    {
        proof {
            lemma_read_wf(self@, threads@, index as int);
        }
        self.apply_load_coherence(threads, index);
        let mut store: Store = self.stores[index];
        store.first_seen.touch(threads);
        self.stores[index] = store;
        assert(self@ =~= old(self)@.read(threads@, index as int));
        store.value
    }

    /// Load slot `index`.
    pub fn load(&mut self, threads: &mut Threads, index: usize, order: Order) -> (r: u128)
        requires
            old(self)@.wf(),
            old(threads)@.running(),
            index < old(self)@.stores.len(),
        ensures
            final(self)@ == old(self)@.read(old(threads)@, index as int),
            final(self)@.wf(),
            final(threads)@ == old(threads)@.synced(
                old(self)@.stores[index as int].sync.happens_before,
                order,
            ),
            final(threads)@.running(),
            r == old(self)@.stores[index as int].value,
    {
        let value: u128 = self.rmw_read(threads, index);
        let store: Store = self.stores[index];
        store.sync.sync_load(threads, order);
        value
    }

    /// The failed-compare-exchange path: a load synchronizing with `failure`.
    pub fn rmw_fail(&self, threads: &mut Threads, index: usize, failure: Order)
        requires
            old(threads)@.running(),
            index < self@.stores.len(),
        ensures
            final(threads)@ == old(threads)@.synced(
                self@.stores[index as int].sync.happens_before,
                failure,
            ),
            final(threads)@.running(),
    {
        let store: Store = self.stores[index];
        store.sync.sync_load(threads, failure);
    }

    /// Put a store into the ring.
    fn append(&mut self, store: Store)
        requires
            old(self)@.stores.len() == live(old(self)@.cnt),
            old(self)@.cnt < u16::MAX,
        ensures
            final(self)@ == old(self)@.appended(store),
    {
        if (self.cnt as usize) < MAX_ATOMIC_HISTORY {
            self.stores.push(store);
        } else {
            let slot: usize = index(self.cnt);
            self.stores[slot] = store;
        }
        self.cnt = self.cnt + 1;
        assert(self@ =~= old(self)@.appended(store));
    }

    /// Plant the genesis store of a cell that precedes the execution and
    /// belongs to no thread.
    pub fn store_pre_execution(&mut self, value: u128)
        requires
            old(self)@.cnt == 0,
            old(self)@.stores.len() == 0,
        ensures
            final(self)@ == old(self)@.appended(pre_execution_store(value)),
    {
        let store = Store {
            value,
            happens_before: VersionVec::new(),
            modification_order: VersionVec::new(),
            id: 0,
            op_id: 0,
            creator: 0,
            rmw_read: None,
            sync: Synchronize::new(),
            first_seen: FirstSeen::new(),
            sc_rank: None,
        };
        self.append(store);
    }

    /// The store that the active thread appends.
    fn make_store(
        &self,
        threads: &Threads,
        sync: Synchronize,
        value: u128,
        order: Order,
        sc_rank: Option<u32>,
        op_id: u64,
    ) -> (r: Store)
        requires
            threads@.running(),
            forall|i: int| 0 <= i < self@.stores.len() ==> (#[trigger] self@.stores[i]).wf(),
        ensures
            r == self@.new_store(threads@, sync, value, order, sc_rank, op_id),
    {
        let creator: usize = threads.active_id();
        let happens_before: VersionVec = threads.causality();
        // Starting with the thread's causality covers WRITE-WRITE coherence
        let mut modification_order: VersionVec = happens_before;
        let sc: bool = sc_rank.is_some();
        let mut i: usize = 0;
        while i < self.stores.len()
            invariant
                i <= self@.stores.len(),
                forall|k: int| 0 <= k < self@.stores.len() ==> (#[trigger] self@.stores[k]).wf(),
                sc == (sc_rank is Some),
                modification_order == self@.store_join(happens_before, sc, i as int),
            decreases self.stores.len() - i,
        {
            let other: Store = self.stores[i];
            assert(other == self@.stores[i as int]);
            // READ-WRITE coherence, WRITE-WRITE coherence, and agreement of
            // the modification order with the sequentially consistent order.
            if other.first_seen.is_seen_in(&happens_before) || happens_before.lane(other.creator)
                >= other.tick() || (sc && other.sc_rank.is_some()) {
                modification_order.join(&other.modification_order);
            }
            i += 1;
        }
        close_rmw_atomicity(&self.stores, &mut modification_order, self.cnt);
        let mut sync: Synchronize = sync;
        sync.sync_store(threads, order);
        let mut first_seen: FirstSeen = FirstSeen::new();
        first_seen.touch(threads);
        Store {
            value,
            happens_before,
            modification_order,
            id: self.cnt,
            op_id,
            creator,
            rmw_read: None,
            sync,
            first_seen,
            sc_rank,
        }
    }

    /// Append a store of the active thread.
    pub fn store(
        &mut self,
        threads: &Threads,
        sync: Synchronize,
        value: u128,
        order: Order,
        sc_rank: Option<u32>,
        op_id: u64,
    )
        requires
            old(self)@.wf() || old(self)@ == RegionModel::blank(old(self)@.mask),
            old(self)@.cnt < u16::MAX,
            threads@.running(),
        ensures
            final(self)@ == old(self)@.appended(
                old(self)@.new_store(threads@, sync, value, order, sc_rank, op_id),
            ),
            final(self)@.wf(),
    {
        proof {
            lemma_appended_wf(self@, threads@, sync, value, order, sc_rank, op_id, None);
        }
        let store = self.make_store(threads, sync, value, order, sc_rank, op_id);
        self.append(store);
    }

    /// The write half of a successful read-modify-write: synchronize with the
    /// read store and append the new value, recording the read store so that
    /// nothing comes between the pair.
    pub fn rmw_commit(
        &mut self,
        threads: &mut Threads,
        index: usize,
        next: u128,
        success: Order,
        sc_rank: Option<u32>,
        op_id: u64,
    )
        requires
            old(self)@.wf(),
            old(self)@.cnt < u16::MAX,
            old(threads)@.running(),
            index < old(self)@.stores.len(),
        ensures
            final(threads)@ == old(threads)@.synced(
                old(self)@.stores[index as int].sync.happens_before,
                success,
            ),
            final(threads)@.running(),
            final(self)@ == old(self)@.rmw_committed(
                final(threads)@,
                index as int,
                next,
                success,
                sc_rank,
                op_id,
            ),
            final(self)@.wf(),
    {
        let read: Store = self.stores[index];
        assert(read == self@.stores[index as int]);
        read.sync.sync_load(threads, success);
        // The read store's creation stamp is captured before the write half
        // runs: in a full ring the new store may land in its slot.
        let rmw_read = RmwRead { read_id: read.id, creator: read.creator, tick: read.tick() };
        proof {
            lemma_appended_wf(
                self@,
                threads@,
                read.sync,
                next,
                success,
                sc_rank,
                op_id,
                Some(rmw_read),
            );
        }
        let mut store = self.make_store(threads, read.sync, next, success, sc_rank, op_id);
        store.rmw_read = Some(rmw_read);
        self.append(store);
    }

    /// Record a wide operation that compared these bits and wrote them back
    /// verbatim. Its load synchronization is performed just as a committing
    /// read-modify-write's is, but no store is appended.
    pub fn preserve_commit(
        &mut self,
        threads: &mut Threads,
        index: usize,
        success: Order,
        op_id: u64,
        write_mask: u128,
    )
        requires
            old(self)@.wf(),
            old(self)@.preserved_cnt < u16::MAX,
            old(threads)@.running(),
            index < old(self)@.stores.len(),
        ensures
            final(threads)@ == old(threads)@.synced(
                old(self)@.stores[index as int].sync.happens_before,
                success,
            ),
            final(threads)@.running(),
            final(self)@ == old(self)@.preserving(
                final(threads)@,
                index as int,
                op_id,
                write_mask,
            ),
            final(self)@.wf(),
    {
        let read: Store = self.stores[index];
        assert(read == self@.stores[index as int]);
        read.sync.sync_load(threads, success);
        let record = PreservedOp {
            op_id,
            read: RmwRead { read_id: read.id, creator: read.creator, tick: read.tick() },
            write_mask,
            creator: threads.active_id(),
        };
        if (self.preserved_cnt as usize) < MAX_ATOMIC_HISTORY {
            self.preserved.push(record);
        } else {
            let slot: usize = self::index(self.preserved_cnt);
            self.preserved[slot] = record;
        }
        self.preserved_cnt = self.preserved_cnt + 1;
        assert(self@ =~= old(self)@.preserving(threads@, index as int, op_id, write_mask));
    }

    /// The newest value.
    pub fn newest_value(&self) -> (r: u128)
        requires
            self@.wf(),
        ensures
            r == self@.stores[self@.newest()].value,
    {
        self.stores[index(self.cnt - 1)].value
    }

    /// Overwrite the newest value in place.
    pub fn overwrite(&mut self, value: u128)
        requires
            old(self)@.wf(),
        ensures
            final(self)@ == old(self)@.overwritten(value),
            final(self)@.wf(),
    {
        let slot: usize = index(self.cnt - 1);
        let mut store: Store = self.stores[slot];
        store.value = value;
        assert(self@.stores[slot as int].wf());
        self.stores[slot] = store;
        assert(self@ =~= old(self)@.overwritten(value));
    }

    /// Promote every live store that thread `creator` created into the
    /// sequentially consistent order at `pos`. A store already ranked keeps
    /// its own, necessarily earlier, position.
    pub fn promote_sc_writes(&mut self, creator: usize, pos: u32)
        requires
            old(self)@.wf(),
        ensures
            final(self)@ == old(self)@.promoted(creator as int, pos),
            final(self)@.wf(),
    {
        let ghost want = self@.promoted(creator as int, pos);
        let mut i: usize = 0;
        while i < self.stores.len()
            invariant
                i <= self@.stores.len(),
                want == old(self)@.promoted(creator as int, pos),
                self@ == (RegionModel { stores: self@.stores, ..old(self)@ }),
                self@.stores.len() == old(self)@.stores.len(),
                forall|k: int| 0 <= k < i ==> #[trigger] self@.stores[k] == want.stores[k],
                forall|k: int|
                    i <= k < self@.stores.len() ==> #[trigger] self@.stores[k] == old(
                        self,
                    )@.stores[k],
            decreases self.stores.len() - i,
        {
            let mut store: Store = self.stores[i];
            if store.creator == creator && store.sc_rank.is_none() {
                store.sc_rank = Some(pos);
                self.stores[i] = store;
            }
            i += 1;
        }
        assert(self@.stores =~= want.stores);
        assert forall|k: int| 0 <= k < self@.stores.len() implies {
            let s = #[trigger] self@.stores[k];
            s.wf() && s.id < self@.cnt && s.id as int % MAX_ATOMIC_HISTORY as int == k
        } by {
            assert(old(self)@.stores[k].wf());
        }
    }

    /// Find all stores that could be returned by an atomic load of this
    /// region.
    pub fn match_load_to_stores(&self, threads: &Threads, view: &VersionVec, order: Order) -> (r:
        Vec<u8>)
        requires
            self@.wf(),
            threads@.running(),
        ensures
            r@ == self@.readable(threads@, *view, order, self@.stores.len() as int),
    {
        let scope: Option<u32> = if is_seq_cst(order) {
            Some(u32::MAX)
        } else {
            threads.active_sc_fence_pos()
        };
        let mut dst: Vec<u8> = Vec::new();
        let mut i: usize = 0;
        while i < self.stores.len()
            invariant
                self@.wf(),
                threads@.running(),
                scope == sc_scope(threads@, order),
                i <= self@.stores.len() <= MAX_ATOMIC_HISTORY,
                dst@ == self@.readable(threads@, *view, order, i as int),
            decreases self.stores.len() - i,
        {
            let store_i: Store = self.stores[i];
            assert(store_i == self@.stores[i as int]);
            let before_yield: bool = store_i.first_seen.is_seen_before_yield(threads);
            let mut out: bool = false;
            let mut j: usize = 0;
            while j < self.stores.len()
                invariant
                    self@.wf(),
                    i < self@.stores.len(),
                    j <= self@.stores.len(),
                    store_i == self@.stores[i as int],
                    store_i.creator < MAX_THREADS,
                    scope == sc_scope(threads@, order),
                    before_yield == store_i.first_seen.seen_before_yield(threads@),
                    out ==> self@.superseded(threads@, *view, order, i as int),
                    !out ==> forall|k: int|
                        0 <= k < j && k != i && ordered(store_i, #[trigger] self@.stores[k])
                            ==> !in_scope(self@.stores[k], scope)
                            && !self@.stores[k].first_seen.seen_in(*view) && !before_yield,
                decreases self.stores.len() - j,
            {
                if i != j && !out {
                    let store_j: Store = self.stores[j];
                    assert(store_j == self@.stores[j as int]);
                    if mo_before(&store_i, &store_j) {
                        let ranked: bool = match (scope, store_j.sc_rank) {
                            (Some(limit), Some(rank)) => rank <= limit,
                            _ => false,
                        };
                        if ranked || store_j.first_seen.is_seen_in(view) || before_yield {
                            out = true;
                        }
                    }
                }
                j += 1;
            }
            if !out {
                assert(!self@.superseded(threads@, *view, order, i as int));
                dst.push(i as u8);
            }
            i += 1;
        }
        dst
    }

    /// Find all stores that a read-modify-write may read: its write is
    /// immediately after its read, so a store with any known successor is not
    /// a legal read. Stores that remain incomparable are all offered.
    pub fn match_rmw_to_stores(&self) -> (r: Vec<u8>)
        requires
            self@.wf(),
        ensures
            r@ == self@.maximal(self@.stores.len() as int),
    {
        let mut dst: Vec<u8> = Vec::new();
        let mut i: usize = 0;
        while i < self.stores.len()
            invariant
                self@.wf(),
                i <= self@.stores.len() <= MAX_ATOMIC_HISTORY,
                dst@ == self@.maximal(i as int),
            decreases self.stores.len() - i,
        {
            let store_i: Store = self.stores[i];
            assert(store_i == self@.stores[i as int]);
            let mut out: bool = false;
            let mut j: usize = 0;
            while j < self.stores.len()
                invariant
                    self@.wf(),
                    i < self@.stores.len(),
                    j <= self@.stores.len(),
                    store_i == self@.stores[i as int],
                    store_i.creator < MAX_THREADS,
                    out ==> self@.succeeded(i as int),
                    !out ==> forall|k: int|
                        0 <= k < j && k != i ==> !ordered(store_i, #[trigger] self@.stores[k]),
                decreases self.stores.len() - j,
            {
                if i != j && !out {
                    let store_j: Store = self.stores[j];
                    assert(store_j == self@.stores[j as int]);
                    if mo_before(&store_i, &store_j) {
                        out = true;
                    }
                }
                j += 1;
            }
            if !out {
                dst.push(i as u8);
            }
            i += 1;
        }
        dst
    }

    /// Check slot `c` against the wide-operation visibility that `resolved`
    /// already fixes and, if they agree, extend `resolved` with the visibility
    /// this region's read newly implies. On disagreement `resolved` is left as
    /// it was, so that the caller may try the next candidate.
    pub fn try_resolve(&self, c: usize, resolved: &mut Resolved) -> (r: bool)
        requires
            self@.wf(),
            c < self@.stores.len(),
        ensures
            match self@.resolve(c as int, old(resolved)@) {
                Some(after) => r && final(resolved)@ == after,
                None => !r && final(resolved)@ == old(resolved)@,
            },
            r ==> final(resolved)@.len() >= old(resolved)@.len(),
            r ==> final(resolved)@.take(old(resolved)@.len() as int) == old(resolved)@,
    {
        let mark: usize = resolved_len(resolved);
        let candidate: Store = self.stores[c];
        assert(candidate == self@.stores[c as int]);
        assert(resolved@.take(mark as int) =~= resolved@);
        let mut i: usize = 0;
        while i < self.stores.len()
            invariant
                self@.wf(),
                c < self@.stores.len(),
                candidate == self@.stores[c as int],
                i <= self@.stores.len(),
                mark == old(resolved)@.len(),
                self@.resolved_upto(c as int, old(resolved)@, i as int) == Some(resolved@),
                resolved@.len() >= mark,
                resolved@.take(mark as int) == old(resolved)@,
            decreases self.stores.len() - i,
        {
            let d: Store = self.stores[i];
            assert(d == self@.stores[i as int]);
            let seen: bool = candidate.id == d.id || mo_before(&d, &candidate);
            match find_fixed(resolved, d.op_id) {
                Some(fixed) => {
                    if fixed != seen {
                        resolved_truncate(resolved, mark);
                        proof {
                            lemma_resolve_fails(self@, c as int, old(resolved)@, i as int + 1);
                        }
                        return false;
                    }
                },
                None => {
                    let ghost before = resolved@;
                    resolved_push(resolved, (d.op_id, seen));
                    assert(resolved@.take(mark as int) =~= before.take(mark as int));
                },
            }
            i += 1;
        }
        true
    }

    /// The slot holding operation `op_id`'s store in this region, or `None`
    /// when it never wrote these bits.
    fn slot_of_op(&self, op_id: u64) -> (r: Option<usize>)
        requires
            self@.wf(),
        ensures
            match r {
                Some(i) => self@.op_slot(op_id, 0) == Some(i as int) && i < self@.stores.len(),
                None => self@.op_slot(op_id, 0) is None,
            },
    {
        let mut i: usize = 0;
        while i < self.stores.len()
            invariant
                i <= self@.stores.len(),
                self@.op_slot(op_id, 0) == self@.op_slot(op_id, i as int),
            decreases self.stores.len() - i,
        {
            if self.stores[i].op_id == op_id {
                return Some(i);
            }
            i += 1;
        }
        None
    }

    /// Where operation `op_id` sits in this region's modification order, or
    /// `None` when it neither wrote nor preserved these bits and so constrains
    /// nothing here.
    pub fn pin_of_op(&self, op_id: u64) -> (r: Option<OpPin>)
        requires
            self@.wf(),
        ensures
            r == self@.pin(op_id),
            r matches Some(OpPin::Wrote(slot)) ==> slot < self@.stores.len(),
            r matches Some(OpPin::Preserved(read)) ==> read.creator < MAX_THREADS,
    {
        if let Some(slot) = self.slot_of_op(op_id) {
            return Some(OpPin::Wrote(slot));
        }
        let mut i: usize = 0;
        while i < self.preserved.len()
            invariant
                self@.wf(),
                i <= self@.preserved.len(),
                self@.op_slot(op_id, 0) is None,
                self@.op_record(op_id, 0) == self@.op_record(op_id, i as int),
            decreases self.preserved.len() - i,
        {
            let p: PreservedOp = self.preserved[i];
            assert(p == self@.preserved[i as int]);
            if p.op_id == op_id {
                return Some(OpPin::Preserved(p.read));
            }
            i += 1;
        }
        None
    }

    /// Does reading slot `c` imply having seen the operation pinned at `pin`?
    pub fn pin_sees(&self, pin: &OpPin, c: usize) -> (r: bool)
        requires
            self@.wf(),
            c < self@.stores.len(),
            *pin matches OpPin::Wrote(slot) ==> slot < self@.stores.len(),
            *pin matches OpPin::Preserved(read) ==> read.creator < MAX_THREADS,
        ensures
            r == self@.pin_seen(*pin, c as int),
    {
        let candidate: Store = self.stores[c];
        match *pin {
            OpPin::Wrote(slot) => {
                let d: Store = self.stores[slot];
                assert(d == self@.stores[slot as int]);
                candidate.id == d.id || mo_before(&d, &candidate)
            },
            OpPin::Preserved(read) => stamp_mo_before(&read, &candidate),
        }
    }

    /// The live slot holding the store with `id`, if the ring still has it.
    pub fn slot_of_store(&self, id: u16) -> (r: Option<usize>)
        requires
            self@.wf(),
        ensures
            match r {
                Some(i) => self@.store_slot(id, 0) == Some(i as int) && i < self@.stores.len(),
                None => self@.store_slot(id, 0) is None,
            },
    {
        let mut i: usize = 0;
        while i < self.stores.len()
            invariant
                i <= self@.stores.len(),
                self@.store_slot(id, 0) == self@.store_slot(id, i as int),
            decreases self.stores.len() - i,
        {
            if self.stores[i].id == id {
                return Some(i);
            }
            i += 1;
        }
        None
    }
}

/// The genesis store of a cell that precedes the execution.
///
/// With creator 0 and an empty causality its tick is 0, so it is
/// modification-order-first by construction.
pub open spec fn pre_execution_store(value: u128) -> Store {
    Store {
        value,
        happens_before: VersionVec::zero(),
        modification_order: VersionVec::zero(),
        id: 0,
        op_id: 0,
        creator: 0,
        rmw_read: None,
        sync: Synchronize::empty(),
        first_seen: FirstSeen::never(),
        sc_rank: None,
    }
}

proof fn lemma_resolve_fails(r: RegionModel, c: int, resolved: Seq<(u64, bool)>, n: int)
    requires
        0 <= n <= r.stores.len(),
        r.resolved_upto(c, resolved, n) is None,
    ensures
        r.resolve(c, resolved) is None,
{
    lemma_resolve_fails_upto(r, c, resolved, n, r.stores.len() as int);
}

proof fn lemma_resolve_fails_upto(
    r: RegionModel,
    c: int,
    resolved: Seq<(u64, bool)>,
    n: int,
    m: int,
)
    requires
        0 <= n <= m,
        r.resolved_upto(c, resolved, n) is None,
    ensures
        r.resolved_upto(c, resolved, m) is None,
    decreases m - n,
{
    if n < m {
        lemma_resolve_fails_upto(r, c, resolved, n, m - 1);
    }
}

/// The visibility already fixed for an operation.
fn find_fixed(resolved: &Resolved, op_id: u64) -> (r: Option<bool>)
    ensures
        r == fixed_for(resolved@, op_id, 0),
{
    let n: usize = resolved_len(resolved);
    let mut i: usize = 0;
    while i < n
        invariant
            n == resolved@.len(),
            i <= n,
            fixed_for(resolved@, op_id, 0) == fixed_for(resolved@, op_id, i as int),
        decreases n - i,
    {
        let entry: (u64, bool) = resolved_get(resolved, i);
        if entry.0 == op_id {
            return Some(entry.1);
        }
        i += 1;
    }
    None
}

} // verus!
