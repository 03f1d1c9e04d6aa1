//! Stores to an atomic cell, and their modification order.
//!
//! `Store::modification_order` is a join of genuine causality snapshots: the
//! storing thread's causality, the vectors of stores known to be before it,
//! and (for a `SeqCst` store) the vectors of the SC-ranked stores already
//! committed to the same region. Because vector clocks are transitively
//! closed, "store `a` is known to be modification-order-before store `b`" is
//! decided by a single-lane marker test: the lane can only reach `a`'s
//! creation tick by having joined a snapshot that causally contains `a`'s
//! creation, and every such join site corresponds to a real edge.
use vstd::array::spec_array_update;
use vstd::prelude::*;

use crate::rt::synchronize::Synchronize;
use crate::rt::thread::{Threads, ThreadsModel};
use crate::rt::vv::{VersionVec, LANES};
use crate::rt::MAX_THREADS;

verus! {

/// Per-thread "version at which this thread first saw the store", padded to
/// the lanes of a version vector. A lane of a thread that has not seen the
/// store, and every padding lane, is `u16::MAX`.
#[derive(Debug, Clone, Copy)]
pub struct FirstSeen {
    versions: [u16; LANES],
}

impl FirstSeen {
    #[verifier::type_invariant]
    spec fn padding_is_unseen(self) -> bool {
        forall|i: int| MAX_THREADS <= i < LANES ==> self.versions@[i] == u16::MAX
    }

    /// The version at which thread `i` first saw the store.
    pub closed spec fn at(self, i: int) -> u16 {
        self.versions@[i]
    }

    /// Nobody has seen the store.
    pub closed spec fn never() -> FirstSeen {
        FirstSeen {
            versions: [
                0xffff,
                0xffff,
                0xffff,
                0xffff,
                0xffff,
                0xffff,
                0xffff,
                0xffff,
            ],
        }
    }

    /// The record after thread `t` saw the store at version `v`.
    pub closed spec fn touched(self, t: int, v: u16) -> FirstSeen {
        if self.at(t) == u16::MAX {
            FirstSeen { versions: spec_array_update(self.versions, t, v) }
        } else {
            self
        }
    }

    /// Thread `t` has itself loaded from, or created, the store.
    pub open spec fn touched_by(self, t: int) -> bool {
        self.at(t) != u16::MAX
    }

    /// Some thread's first sight of the store is contained in `view`.
    pub open spec fn seen_in(self, view: VersionVec) -> bool {
        exists|i: int| 0 <= i < LANES && #[trigger] self.at(i) != u16::MAX && self.at(i) <= view.at(i)
    }

    /// The active thread saw the store before its last yield.
    pub open spec fn seen_before_yield(self, t: ThreadsModel) -> bool {
        t.current().last_yield matches Some(y) && self.at(t.me()) != u16::MAX && self.at(t.me())
            <= y
    }

    pub proof fn lemma_ext(a: FirstSeen, b: FirstSeen)
        requires
            forall|i: int| 0 <= i < LANES ==> #[trigger] a.at(i) == b.at(i),
        ensures
            a == b,
    {
        assert forall|i: int| 0 <= i < LANES implies #[trigger] a.versions[i] == b.versions[i] by {
            assert(a.at(i) == b.at(i));
        }
        assert(a.versions =~= b.versions);
    }

    pub broadcast proof fn lemma_never_at(i: int)
        requires
            0 <= i < LANES,
        ensures
            #[trigger] FirstSeen::never().at(i) == u16::MAX,
    {
    }

    pub broadcast proof fn lemma_touched_at(a: FirstSeen, t: int, v: u16, i: int)
        requires
            0 <= i < LANES,
            0 <= t < LANES,
        ensures
            #[trigger] a.touched(t, v).at(i) == if i == t && a.at(t) == u16::MAX {
                v
            } else {
                a.at(i)
            },
    {
    }

    pub fn new() -> (r: FirstSeen)
        ensures
            r == FirstSeen::never(),
    {
        let r = FirstSeen { versions: [0xffffu16;LANES] };
        proof {
            FirstSeen::lemma_ext(r, FirstSeen::never());
        }
        r
    }

    /// The active thread sees the store.
    pub fn touch(&mut self, threads: &Threads)
        requires
            threads@.running(),
        ensures
            *final(self) == old(self).touched(threads@.me(), threads@.version()),
    {
        proof {
            use_type_invariant(&*self);
        }
        let id: usize = threads.active_id();
        if self.versions[id] == u16::MAX {
            let mut versions: [u16; LANES] = self.versions;
            versions[id] = threads.active_atomic_version();
            self.versions = versions;
            proof {
                broadcast use FirstSeen::lemma_touched_at;

                FirstSeen::lemma_ext(
                    *self,
                    old(self).touched(threads@.me(), threads@.version()),
                );
            }
        }
    }

    pub fn is_seen_by_current(&self, threads: &Threads) -> (r: bool)
        requires
            threads@.running(),
        ensures
            r == self.seen_in(threads@.current().causality),
    {
        self.is_seen_in(&threads.causality())
    }

    /// True if the given thread has itself loaded from (or created) the
    /// store, at any point.
    pub fn is_touched_by(&self, thread_id: usize) -> (r: bool)
        requires
            thread_id < MAX_THREADS,
        ensures
            r == self.touched_by(thread_id as int),
    {
        self.versions[thread_id] != u16::MAX
    }

    /// True if some thread's first sight of the store is contained in `view`.
    pub fn is_seen_in(&self, view: &VersionVec) -> (r: bool)
        ensures
            r == self.seen_in(*view),
    {
        let mut i: usize = 0;
        while i < LANES
            invariant
                i <= LANES,
                forall|k: int|
                    0 <= k < i ==> #[trigger] self.at(k) == u16::MAX || self.at(k) > view.at(k),
            decreases LANES - i,
        {
            let fs: u16 = self.versions[i];
            if fs != u16::MAX && fs <= view.lane(i) {
                assert(self.at(i as int) != u16::MAX && self.at(i as int) <= view.at(i as int));
                return true;
            }
            i += 1;
        }
        false
    }

    pub fn is_seen_before_yield(&self, threads: &Threads) -> (r: bool)
        requires
            threads@.running(),
        ensures
            r == self.seen_before_yield(threads@),
    {
        match threads.current().last_yield {
            Some(last_yield) => {
                let v: u16 = self.versions[threads.active_id()];
                v != u16::MAX && v <= last_yield
            },
            None => false,
        }
    }
}

/// Creation stamp of the store that a read-modify-write read: the persistent
/// record of the "nothing may split this pair" obligation.
#[derive(Debug, Clone, Copy)]
pub struct RmwRead {
    /// `Store::id` of the read store, to exclude the read store itself from
    /// the closure (it is *before* its own successor).
    pub read_id: u16,
    /// `Store::creator` of the read store.
    pub creator: usize,
    /// The tick of the read store.
    pub tick: u16,
}

/// One store to a region of a cell.
#[derive(Debug, Clone, Copy)]
pub struct Store {
    /// The stored value. All atomic types can be converted to `u128`.
    pub value: u128,
    /// The causality of the thread when it stores the value.
    pub happens_before: VersionVec,
    /// Tracks the modification order: a join of the causality snapshots of
    /// this store and every store known to be before it.
    pub modification_order: VersionVec,
    /// Absolute store count at creation; identifies the store across ring
    /// eviction within one execution.
    pub id: u16,
    /// Identity of the store **operation** that created this store, shared by
    /// every region a wide operation wrote in one step and unique to a masked
    /// one. A full-width load keeps wide operations single-copy-atomic by
    /// reading a store's siblings all-or-none.
    pub op_id: u64,
    /// Lane index of the storing thread. `(creator, tick)` is the store's
    /// unique creation stamp: the coordinate the marker test reads.
    pub creator: usize,
    /// When this store is the write half of a read-modify-write, the creation
    /// stamp of the store that was read.
    pub rmw_read: Option<RmwRead>,
    /// Manages causality transfers between threads
    pub sync: Synchronize,
    /// Tracks when each thread first saw value
    pub first_seen: FirstSeen,
    /// This store's rank in the total order of sequentially consistent
    /// operations, or `None` if it does not participate. A store is ranked
    /// either because it was itself a `SeqCst` store or because it was
    /// sequenced before a `SeqCst` fence that has since executed.
    pub sc_rank: Option<u32>,
}

impl Store {
    /// The creating thread's clock component at creation.
    pub open spec fn stamp(self) -> u16 {
        self.happens_before.at(self.creator as int)
    }

    /// The store's own creation is in its modification order.
    pub open spec fn wf(self) -> bool {
        &&& self.creator < MAX_THREADS
        &&& self.happens_before.below(self.modification_order)
        &&& self.rmw_read matches Some(r) ==> r.creator < MAX_THREADS
    }

    /// The store named by a creation stamp.
    pub open spec fn as_read(self) -> RmwRead {
        RmwRead { read_id: self.id, creator: self.creator, tick: self.stamp() }
    }

    /// The creating thread's clock component at creation: with `creator`, the
    /// store's unique creation stamp.
    pub fn tick(&self) -> (r: u16)
        requires
            self.creator < MAX_THREADS,
        ensures
            r == self.stamp(),
    {
        self.happens_before.lane(self.creator)
    }
}

/// Store `a` is known modification-order-before store `b`.
pub open spec fn ordered(a: Store, b: Store) -> bool {
    a.id != b.id && b.modification_order.at(a.creator as int) >= a.stamp()
}

/// The same for a store recorded only as a creation stamp.
pub open spec fn stamp_ordered(a: RmwRead, b: Store) -> bool {
    a.read_id != b.id && b.modification_order.at(a.creator as int) >= a.tick
}

/// A stamp orders exactly as the store that it names: it outlives the store.
pub proof fn stamps_order_as_their_stores(a: Store, b: Store)
    ensures
        stamp_ordered(a.as_read(), b) == ordered(a, b),
{
}

/// True when store `a` is known modification-order-before store `b`.
pub fn mo_before(a: &Store, b: &Store) -> (r: bool)
    requires
        a.creator < MAX_THREADS,
    ensures
        r == ordered(*a, *b),
{
    a.id != b.id && b.modification_order.lane(a.creator) >= a.tick()
}

/// [`mo_before`] for a store recorded only as a creation stamp.
pub fn stamp_mo_before(stamp: &RmwRead, b: &Store) -> (r: bool)
    requires
        stamp.creator < MAX_THREADS,
    ensures
        r == stamp_ordered(*stamp, *b),
{
    stamp.read_id != b.id && b.modification_order.lane(stamp.creator) >= stamp.tick
}

// ----- atomicity of read-modify-writes -----
/// The vector `mo` of the store `id` contains what the write `w` read, and not
/// yet `w` itself.
pub open spec fn splits(w: Store, mo: VersionVec, id: u16) -> bool {
    &&& w.id != id
    &&& w.rmw_read matches Some(read) && read.read_id != id && mo.at(read.creator as int)
        >= read.tick && mo.at(w.creator as int) < w.stamp()
}

/// One pass of the closure over the first `n` stores.
pub open spec fn close_pass(stores: Seq<Store>, mo: VersionVec, id: u16, n: int) -> VersionVec
    decreases n,
{
    if n <= 0 {
        mo
    } else {
        let before = close_pass(stores, mo, id, n - 1);
        if splits(stores[n - 1], before, id) {
            before.joined(stores[n - 1].modification_order)
        } else {
            before
        }
    }
}

/// How far a vector can still grow.
pub open spec fn slack(v: VersionVec) -> int {
    (0xffff - v.at(0)) + (0xffff - v.at(1)) + (0xffff - v.at(2)) + (0xffff - v.at(3)) + (0xffff
        - v.at(4)) + (0xffff - v.at(5)) + (0xffff - v.at(6)) + (0xffff - v.at(7))
}

pub proof fn lemma_slack(a: VersionVec, b: VersionVec)
    requires
        a.below(b),
        a != b,
    ensures
        0 <= slack(b) < slack(a),
{
    if slack(b) >= slack(a) {
        assert(a.at(0) <= b.at(0) && a.at(1) <= b.at(1) && a.at(2) <= b.at(2) && a.at(3) <= b.at(3)
            && a.at(4) <= b.at(4) && a.at(5) <= b.at(5) && a.at(6) <= b.at(6) && a.at(7)
            <= b.at(7));
        VersionVec::lemma_ext(a, b);
    }
}

pub proof fn lemma_close_pass(stores: Seq<Store>, mo: VersionVec, id: u16, n: int)
    ensures
        mo.below(close_pass(stores, mo, id, n)),
    decreases n,
{
    VersionVec::below_is_partial_order(mo, mo, mo);
    if n > 0 {
        let before = close_pass(stores, mo, id, n - 1);
        let w = stores[n - 1].modification_order;
        lemma_close_pass(stores, mo, id, n - 1);
        VersionVec::join_is_least_upper_bound(before, w, w);
        VersionVec::below_is_partial_order(mo, before, before.joined(w));
    }
}

/// The atomicity of read-modify-writes run to its fixpoint on `mo`, the
/// modification order of the store `id`.
///
/// For every write `w` that read store `x`: if `mo` already contains `x` but
/// not yet `w`, then, because nothing may sit between `x` and `w`, the target
/// store is after `w`; `w`'s vector is joined. Iterated because writes chain.
pub open spec fn closed_under_rmw(stores: Seq<Store>, mo: VersionVec, id: u16) -> VersionVec
    decreases slack(mo),
    via closed_decreases
{
    let next = close_pass(stores, mo, id, stores.len() as int);
    if next == mo {
        mo
    } else {
        closed_under_rmw(stores, next, id)
    }
}

#[via_fn]
proof fn closed_decreases(stores: Seq<Store>, mo: VersionVec, id: u16) {
    let next = close_pass(stores, mo, id, stores.len() as int);
    lemma_close_pass(stores, mo, id, stores.len() as int);
    if next != mo {
        lemma_slack(mo, next);
    }
}

/// The closure only grows the vector, and nothing is left to close.
pub proof fn lemma_closed(stores: Seq<Store>, mo: VersionVec, id: u16)
    ensures
        mo.below(closed_under_rmw(stores, mo, id)),
        close_pass(
            stores,
            closed_under_rmw(stores, mo, id),
            id,
            stores.len() as int,
        ) == closed_under_rmw(stores, mo, id),
    decreases slack(mo),
{
    let next = close_pass(stores, mo, id, stores.len() as int);
    lemma_close_pass(stores, mo, id, stores.len() as int);
    VersionVec::below_is_partial_order(mo, mo, mo);
    if next != mo {
        lemma_slack(mo, next);
        lemma_closed(stores, next, id);
        VersionVec::below_is_partial_order(mo, next, closed_under_rmw(stores, next, id));
    }
}

proof fn lemma_pass_fixpoint(stores: Seq<Store>, mo: VersionVec, id: u16, n: int)
    requires
        0 <= n <= stores.len(),
        forall|i: int| 0 <= i < stores.len() ==> (#[trigger] stores[i]).wf(),
        close_pass(stores, mo, id, n) == mo,
    ensures
        forall|i: int| 0 <= i < n ==> !splits(#[trigger] stores[i], mo, id),
    decreases n,
{
    if n > 0 {
        let before = close_pass(stores, mo, id, n - 1);
        let w = stores[n - 1];
        lemma_close_pass(stores, mo, id, n - 1);
        VersionVec::join_is_least_upper_bound(before, w.modification_order, mo);
        VersionVec::below_is_partial_order(mo, before, mo);
        if splits(w, before, id) {
            broadcast use VersionVec::lemma_joined_at;

            assert(w.wf());
            assert(w.happens_before.at(w.creator as int) <= w.modification_order.at(
                w.creator as int,
            ));
            assert(mo.at(w.creator as int) >= w.stamp());
            assert(before.at(w.creator as int) <= mo.at(w.creator as int));
            assert(mo.below(before));
            assert(mo.at(w.creator as int) <= before.at(w.creator as int));
        }
        assert(before == mo);
        lemma_pass_fixpoint(stores, mo, id, n - 1);
    }
}

/// Nothing splits a read-modify-write: whatever is modification-order-after
/// the store that a live write read is after the write itself.
pub proof fn nothing_splits_a_rmw(stores: Seq<Store>, mo: VersionVec, id: u16, i: int)
    requires
        forall|k: int| 0 <= k < stores.len() ==> (#[trigger] stores[k]).wf(),
        0 <= i < stores.len(),
    ensures
        ({
            let closed = closed_under_rmw(stores, mo, id);
            let w = stores[i];
            w.id != id && w.rmw_read is Some && w.rmw_read->Some_0.read_id != id && closed.at(
                w.rmw_read->Some_0.creator as int,
            ) >= w.rmw_read->Some_0.tick ==> closed.at(w.creator as int) >= w.stamp()
        }),
{
    let closed = closed_under_rmw(stores, mo, id);
    lemma_closed(stores, mo, id);
    lemma_pass_fixpoint(stores, closed, id, stores.len() as int);
    assert(!splits(stores[i], closed, id));
}

/// Run the atomicity of read-modify-writes to fixpoint on `mo`, the
/// modification order of the store identified by `id` (use the
/// about-to-be-created store's id at creation: it is not in the ring yet, so
/// nothing matches it).
pub fn close_rmw_atomicity(stores: &Vec<Store>, mo: &mut VersionVec, id: u16)
    requires
        forall|i: int| 0 <= i < stores@.len() ==> (#[trigger] stores@[i]).wf(),
    ensures
        *final(mo) == closed_under_rmw(stores@, *old(mo), id),
{
    loop
        invariant
            forall|i: int| 0 <= i < stores@.len() ==> (#[trigger] stores@[i]).wf(),
            closed_under_rmw(stores@, *mo, id) == closed_under_rmw(stores@, *old(mo), id),
        decreases slack(*mo),
    {
        let ghost start = *mo;
        let mut changed: bool = false;
        let mut i: usize = 0;
        while i < stores.len()
            invariant
                forall|k: int| 0 <= k < stores@.len() ==> (#[trigger] stores@[k]).wf(),
                i <= stores@.len(),
                *mo == close_pass(stores@, start, id, i as int),
                start.below(*mo),
                changed == (*mo != start),
            decreases stores.len() - i,
        {
            let w: Store = stores[i];
            assert(w.wf());
            if w.id != id {
                if let Some(read) = w.rmw_read {
                    if read.read_id != id {
                        let after_read: bool = mo.lane(read.creator) >= read.tick;
                        let after_write: bool = mo.lane(w.creator) >= w.tick();
                        if after_read && !after_write {
                            let ghost before = *mo;
                            mo.join(&w.modification_order);
                            changed = true;
                            proof {
                                broadcast use VersionVec::lemma_joined_at;

                                VersionVec::join_is_least_upper_bound(
                                    before,
                                    w.modification_order,
                                    before,
                                );
                                VersionVec::below_is_partial_order(start, before, *mo);
                                assert(w.happens_before.at(w.creator as int)
                                    <= w.modification_order.at(w.creator as int));
                                assert(start.at(w.creator as int) <= before.at(w.creator as int));
                                assert(mo.at(w.creator as int) >= w.stamp());
                                assert(start.at(w.creator as int) < w.stamp());
                            }
                        }
                    }
                }
            }
            i += 1;
        }
        if !changed {
            return ;
        }
        proof {
            lemma_slack(start, *mo);
        }
    }
}

} // verus!
