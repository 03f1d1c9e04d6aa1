//! The state of one atomic cell.
//!
//! # Sub-word sub-locations (mixed-size atomics)
//!
//! One cell may be accessed at sub-word granularity: an aligned lane written
//! on its own while the rest of the word is untouched. The cell is modelled as
//! a set of **regions**: pairwise-disjoint bit masks, each a self-contained
//! store history with its own modification order.
//!
//! - Regions are **discovered by refining split**: a cell starts as one
//!   full-width region and an operation whose mask cuts a region splits it so
//!   the mask becomes a union of whole regions.
//! - A **full-width operation spans every region as one linearization point**:
//!   a full load composes the per-region readable choices; a full store or
//!   read-modify-write writes every region sharing one position in the
//!   sequentially consistent order.
//! - **Typed lane loads are whole-cell-coherent lane reads**: the lane reads
//!   its *own* regions only, but it can never travel behind a whole-cell
//!   operation the thread has already observed through another region.
//! - **A wide read-modify-write declares reads and writes separately**: on the
//!   bits that it only reads it appends no store, and commutes with their
//!   readers.
use vstd::prelude::*;

use crate::rt::access::{Access, Accesses};
use crate::rt::atomic::action::FULL_MASK;
use crate::rt::atomic::region::{pre_execution_store, Region, RegionModel};
use crate::rt::atomic::store::FirstSeen;
use crate::rt::bits;
use crate::rt::fault::{Fault, Race};
use crate::rt::order::{acquires, Order};
use crate::rt::small::{indices_new, indices_push, Indices};
use crate::rt::synchronize::Synchronize;
use crate::rt::thread::{Action, Threads, ThreadsModel};
use crate::rt::vv::VersionVec;
use crate::rt::MAX_THREADS;

verus! {

/// One atomic cell.
pub struct State {
    /// Transitive closure of all atomic loads from the cell.
    pub loaded_at: VersionVec,
    /// Transitive closure of all **unsynchronized** loads from the cell.
    pub unsync_loaded_at: VersionVec,
    /// Transitive closure of all atomic stores to the cell.
    pub stored_at: VersionVec,
    /// Version of the most recent **unsynchronized** mutable access to the
    /// cell. This includes its initialization.
    pub unsync_mut_at: VersionVec,
    /// `true` when in a `with_mut` closure. If this is set, there can be no
    /// access to the cell.
    pub is_mutating: bool,
    /// The sub-word regions of the cell.
    pub regions: Vec<Region>,
    /// Monotonic per-cell counter of store operations. Each takes the next id
    /// and stamps every region it writes with it, so a wide operation's
    /// siblings share one id. The genesis store is id 0.
    pub op_clock: u64,
    /// Threads that have loaded from or stored to the cell. An acquire fence
    /// synchronizes only with stores that its thread has touched, and a
    /// `SeqCst` fence only promotes stores of its thread, so that cells whose
    /// bit is clear are skipped.
    pub touched_by: u16,
    /// Regions of earlier lives of this cell, for reuse.
    pub spares: Vec<Region>,
}

/// What a cell is.
#[verifier::ext_equal]
pub struct StateModel {
    pub loaded_at: VersionVec,
    pub unsync_loaded_at: VersionVec,
    pub stored_at: VersionVec,
    pub unsync_mut_at: VersionVec,
    pub is_mutating: bool,
    pub regions: Seq<RegionModel>,
    pub op_clock: u64,
    pub touched_by: u16,
}

/// The regions as the model writes them.
pub open spec fn region_views(regions: Seq<Region>) -> Seq<RegionModel> {
    regions.map_values(|r: Region| r@)
}

impl View for State {
    type V = StateModel;

    open spec fn view(&self) -> StateModel {
        StateModel {
            loaded_at: self.loaded_at,
            unsync_loaded_at: self.unsync_loaded_at,
            stored_at: self.stored_at,
            unsync_mut_at: self.unsync_mut_at,
            is_mutating: self.is_mutating,
            regions: region_views(self.regions@),
            op_clock: self.op_clock,
            touched_by: self.touched_by,
        }
    }
}

/// The bits that the first `n` regions own.
pub open spec fn owned(regions: Seq<RegionModel>, n: int) -> u128
    decreases n,
{
    if n <= 0 {
        0
    } else {
        owned(regions, n - 1) | regions[n - 1].mask
    }
}

/// The regions partition the whole width.
pub open spec fn partition(regions: Seq<RegionModel>) -> bool {
    &&& forall|i: int| 0 <= i < regions.len() ==> (#[trigger] regions[i]).mask != 0
    &&& forall|i: int, j: int|
        #![trigger regions[i], regions[j]]
        0 <= i < j < regions.len() ==> regions[i].mask & regions[j].mask == 0
    &&& owned(regions, regions.len() as int) == FULL_MASK
}

/// Every thread that has seen a store of the cell is in `touched_by`.
pub open spec fn touches_recorded(regions: Seq<RegionModel>, touched_by: u16) -> bool {
    forall|i: int, k: int, t: int|
        #![trigger regions[i].stores[k].first_seen.at(t)]
        0 <= i < regions.len() && 0 <= k < regions[i].stores.len() && 0 <= t < MAX_THREADS
            && regions[i].stores[k].first_seen.touched_by(t) ==> bits::holds(touched_by, t)
}

/// The region straddles the boundary of `mask`.
pub open spec fn straddles(r: RegionModel, mask: u128) -> bool {
    r.mask & mask != 0 && r.mask & !mask != 0
}

/// The regions with the first `n` of them cut at the boundary of `mask`: the
/// inside part stays in place, the outside part goes to the end.
pub open spec fn cut_upto(regions: Seq<RegionModel>, mask: u128, n: int) -> Seq<RegionModel>
    decreases n,
{
    if n <= 0 {
        regions
    } else {
        let before = cut_upto(regions, mask, n - 1);
        let r = regions[n - 1];
        if straddles(r, mask) {
            before.update(n - 1, RegionModel { mask: r.mask & mask, ..r }).push(
                RegionModel { mask: r.mask & !mask, ..r },
            )
        } else {
            before
        }
    }
}

/// The newest bits of the first `n` regions.
pub open spec fn newest_bits(regions: Seq<RegionModel>, n: int) -> u128
    decreases n,
{
    if n <= 0 {
        0
    } else {
        newest_bits(regions, n - 1) | (regions[n - 1].stores[regions[n - 1].newest()].value
            & regions[n - 1].mask)
    }
}

/// The threads that read one of the first `n` regions under `mask`.
pub open spec fn readers_under(
    regions: Seq<RegionModel>,
    mask: u128,
    acquiring: bool,
    n: int,
) -> u16
    decreases n,
{
    if n <= 0 {
        0
    } else {
        let before = readers_under(regions, mask, acquiring, n - 1);
        let r = regions[n - 1];
        if r.mask & mask != 0 {
            before | (if acquiring {
                r.acquiring_readers
            } else {
                r.readers
            })
        } else {
            before
        }
    }
}

/// The accesses recorded in a table, in thread order.
pub open spec fn listed(table: Accesses, n: int) -> Seq<Access>
    decreases n,
{
    if n <= 0 {
        Seq::empty()
    } else {
        match table@[n - 1] {
            Some(a) => listed(table, n - 1).push(a),
            None => listed(table, n - 1),
        }
    }
}

impl RegionModel {
    /// An operation over `mask` by `reader` cannot reach the bits that some
    /// preserving operation of another thread wrote.
    pub open spec fn unrouted(self, mask: u128, reader: int) -> bool {
        exists|i: int|
            0 <= i < self.preserved.len() && (#[trigger] self.preserved[i]).write_mask & mask == 0
                && self.preserved[i].creator != reader
    }

    /// The region with a read of `reader` recorded.
    pub open spec fn scoped(self, mask: u128, acquiring: bool, reader: int) -> RegionModel {
        RegionModel {
            readers: self.readers | bits::only(reader),
            acquiring_readers: if acquiring {
                self.acquiring_readers | bits::only(reader)
            } else {
                self.acquiring_readers
            },
            unrouted_readers: if self.unrouted(mask, reader) {
                self.unrouted_readers | bits::only(reader)
            } else {
                self.unrouted_readers
            },
            ..self
        }
    }
}

impl StateModel {
    pub open spec fn wf(self) -> bool {
        &&& self.regions.len() > 0
        &&& forall|i: int| 0 <= i < self.regions.len() ==> (#[trigger] self.regions[i]).wf()
        &&& partition(self.regions)
        &&& touches_recorded(self.regions, self.touched_by)
    }

    /// The cell with region `i` replaced.
    pub open spec fn with_region(self, i: int, r: RegionModel) -> StateModel {
        StateModel { regions: self.regions.update(i, r), ..self }
    }

    /// A cell that holds nothing.
    pub open spec fn blank() -> StateModel {
        StateModel {
            loaded_at: VersionVec::zero(),
            unsync_loaded_at: VersionVec::zero(),
            stored_at: VersionVec::zero(),
            unsync_mut_at: VersionVec::zero(),
            is_mutating: false,
            regions: seq![RegionModel::blank(FULL_MASK)],
            op_clock: 0,
            touched_by: 0,
        }
    }

    /// A cell created by the active thread: every later access must happen
    /// after its creation.
    pub open spec fn created(t: ThreadsModel, value: u128) -> StateModel {
        let r = RegionModel::blank(FULL_MASK);
        StateModel {
            unsync_mut_at: VersionVec::zero().joined(t.current().causality),
            regions: seq![
                r.appended(r.new_store(t, Synchronize::empty(), value, Order::Release, None, 0)),
            ],
            touched_by: bits::only(t.me()),
            ..StateModel::blank()
        }
    }

    /// A cell whose genesis store precedes the execution and belongs to no
    /// thread. A cell in published memory takes the publishing thread's
    /// causality as what every access must happen after.
    pub open spec fn deferred(value: u128, published: Option<VersionVec>) -> StateModel {
        StateModel {
            unsync_mut_at: match published {
                Some(causality) => causality,
                None => VersionVec::zero(),
            },
            regions: seq![
                RegionModel::blank(FULL_MASK).appended(pre_execution_store(value)),
            ],
            ..StateModel::blank()
        }
    }

    // ----- partition -----
    /// The cell with `mask` made a union of whole regions.
    pub open spec fn partitioned(self, mask: u128) -> StateModel {
        StateModel {
            regions: cut_upto(self.regions, mask, self.regions.len() as int),
            ..self
        }
    }

    /// The first `n` regions that share bits with `mask`.
    pub open spec fn covered_upto(self, mask: u128, n: int) -> Seq<usize>
        decreases n,
    {
        if n <= 0 {
            Seq::empty()
        } else if self.regions[n - 1].mask & mask != 0 {
            self.covered_upto(mask, n - 1).push((n - 1) as usize)
        } else {
            self.covered_upto(mask, n - 1)
        }
    }

    /// The regions that share bits with `mask`.
    pub open spec fn covered(self, mask: u128) -> Seq<usize> {
        self.covered_upto(mask, self.regions.len() as int)
    }

    /// The newest value, each region contributing its own bits.
    pub open spec fn value(self) -> u128 {
        newest_bits(self.regions, self.regions.len() as int)
    }

    // ----- causality -----
    /// The cell after the active thread loaded from it.
    pub open spec fn tracked_load(self, t: ThreadsModel) -> Result<StateModel, Fault> {
        let current = t.current().causality;
        if self.is_mutating {
            Err(Fault::Mutating)
        } else if let Some(thread) = current.first_ahead(self.unsync_mut_at, 0) {
            Err(Fault::Causality { race: Race::LoadMut, thread })
        } else {
            Ok(
                StateModel {
                    touched_by: self.touched_by | bits::only(t.me()),
                    loaded_at: self.loaded_at.joined(current),
                    ..self
                },
            )
        }
    }

    /// The cell after the active thread loaded from it without
    /// synchronization.
    pub open spec fn tracked_unsync_load(self, t: ThreadsModel) -> Result<StateModel, Fault> {
        let current = t.current().causality;
        if self.is_mutating {
            Err(Fault::Mutating)
        } else if let Some(thread) = current.first_ahead(self.unsync_mut_at, 0) {
            Err(Fault::Causality { race: Race::UnsyncLoadMut, thread })
        } else if let Some(thread) = current.first_ahead(self.stored_at, 0) {
            Err(Fault::Causality { race: Race::UnsyncLoadStore, thread })
        } else {
            Ok(StateModel { unsync_loaded_at: self.unsync_loaded_at.joined(current), ..self })
        }
    }

    /// The cell after the active thread stored to it.
    pub open spec fn tracked_store(self, t: ThreadsModel) -> Result<StateModel, Fault> {
        let current = t.current().causality;
        if self.is_mutating {
            Err(Fault::Mutating)
        } else if let Some(thread) = current.first_ahead(self.unsync_mut_at, 0) {
            Err(Fault::Causality { race: Race::StoreMut, thread })
        } else if let Some(thread) = current.first_ahead(self.unsync_loaded_at, 0) {
            Err(Fault::Causality { race: Race::StoreUnsyncLoad, thread })
        } else {
            Ok(
                StateModel {
                    touched_by: self.touched_by | bits::only(t.me()),
                    stored_at: self.stored_at.joined(current),
                    ..self
                },
            )
        }
    }

    /// The cell after the active thread mutated it without synchronization.
    pub open spec fn tracked_unsync_mut(self, t: ThreadsModel) -> Result<StateModel, Fault> {
        let current = t.current().causality;
        if self.is_mutating {
            Err(Fault::Mutating)
        } else if let Some(thread) = current.first_ahead(self.loaded_at, 0) {
            Err(Fault::Causality { race: Race::MutLoad, thread })
        } else if let Some(thread) = current.first_ahead(self.unsync_loaded_at, 0) {
            Err(Fault::Causality { race: Race::MutUnsyncLoad, thread })
        } else if let Some(thread) = current.first_ahead(self.stored_at, 0) {
            Err(Fault::Causality { race: Race::MutStore, thread })
        } else if let Some(thread) = current.first_ahead(self.unsync_mut_at, 0) {
            Err(Fault::Causality { race: Race::MutMut, thread })
        } else {
            Ok(StateModel { unsync_mut_at: self.unsync_mut_at.joined(current), ..self })
        }
    }

    // ----- preserved lanes -----
    /// The cell with a read over `mask` by `reader` checked and recorded.
    ///
    /// A read is *routed* around a preserving operation when it also reaches a
    /// region that the operation wrote, or ran the operation itself. An
    /// unrouted read that acquires has lost causality; one that does not is
    /// recorded, for an acquire fence to find.
    pub open spec fn scope_checked(self, mask: u128, acquiring: bool, reader: int) -> Result<
        StateModel,
        Fault,
    > {
        if acquiring && exists|i: int|
            0 <= i < self.regions.len() && (#[trigger] self.regions[i]).mask & mask != 0
                && self.regions[i].unrouted(mask, reader) {
            Err(Fault::PreservedAcquire)
        } else {
            Ok(
                StateModel {
                    regions: Seq::new(
                        self.regions.len(),
                        |i: int|
                            if self.regions[i].mask & mask != 0 {
                                self.regions[i].scoped(mask, acquiring, reader)
                            } else {
                                self.regions[i]
                            },
                    ),
                    ..self
                },
            )
        }
    }

    /// The cell with the reads of region `ri` that came before a preserving
    /// operation of `creator` checked and recorded.
    pub open spec fn prior_reads_checked(
        self,
        ri: int,
        write_mask: u128,
        creator: int,
    ) -> Result<StateModel, Fault> {
        let n = self.regions.len() as int;
        let r = self.regions[ri];
        let readers = r.readers & !bits::only(creator);
        let acquirers = r.acquiring_readers & !bits::only(creator);
        if readers == 0 {
            Ok(self)
        } else if acquirers & !readers_under(self.regions, write_mask, true, n) != 0 {
            Err(Fault::PreservedAcquired)
        } else {
            Ok(
                self.with_region(
                    ri,
                    RegionModel {
                        unrouted_readers: r.unrouted_readers | (readers & !readers_under(
                            self.regions,
                            write_mask,
                            false,
                            n,
                        )),
                        ..r
                    },
                ),
            )
        }
    }

    /// Thread `t` holds a read of some preserved lane that an acquire fence
    /// would try, and fail, to draw causality from.
    pub open spec fn holds_unrouted(self, t: int) -> bool {
        exists|i: int|
            0 <= i < self.regions.len() && bits::holds(
                (#[trigger] self.regions[i]).unrouted_readers,
                t,
            )
    }

    // ----- dependence -----
    /// The accesses that `action` depends on, in the first `n` regions.
    pub open spec fn dependent_upto(self, action: Action, n: int) -> Seq<Access>
        decreases n,
    {
        if n <= 0 {
            Seq::empty()
        } else {
            let before = self.dependent_upto(action, n - 1);
            let r = self.regions[n - 1];
            if r.mask & action.touches() != 0 {
                before + listed(r.dependent(r.mask & action.writes() == 0), MAX_THREADS as int)
            } else {
                before
            }
        }
    }

    /// The accesses that `action` depends on: every thread's last dependent
    /// access that shares bits with it. The kind of the operation is decided
    /// per region: a preserving read-modify-write is a writer in the regions
    /// that its write mask covers and a reader in the others.
    pub open spec fn dependent(self, action: Action) -> Seq<Access> {
        self.dependent_upto(action, self.regions.len() as int)
    }

    /// The cell with an access of thread `t` recorded in every region that
    /// `action` touches.
    pub open spec fn accessed(self, action: Action, t: int, access: Access) -> StateModel {
        StateModel {
            regions: Seq::new(
                self.regions.len(),
                |i: int|
                    if self.regions[i].mask & action.touches() != 0 {
                        self.regions[i].accessed(
                            self.regions[i].mask & action.writes() == 0,
                            t,
                            access,
                        )
                    } else {
                        self.regions[i]
                    },
            ),
            ..self
        }
    }

    // ----- writes -----
    /// The cell with the newest value overwritten in place.
    pub open spec fn overwritten(self, value: u128) -> StateModel {
        StateModel {
            regions: Seq::new(
                self.regions.len(),
                |i: int| self.regions[i].overwritten(value),
            ),
            ..self
        }
    }

    /// The cell with the stores of thread `creator` ranked at `pos`.
    pub open spec fn promoted(self, creator: int, pos: u32) -> StateModel {
        StateModel {
            regions: Seq::new(
                self.regions.len(),
                |i: int| self.regions[i].promoted(creator, pos),
            ),
            ..self
        }
    }

    /// The cell with one more store operation counted.
    pub open spec fn next_op(self) -> StateModel {
        StateModel { op_clock: (self.op_clock + 1) as u64, ..self }
    }

    /// The cell with one store appended to every region under `mask`.
    pub open spec fn stored(
        self,
        t: ThreadsModel,
        mask: u128,
        value: u128,
        order: Order,
        sc_rank: Option<u32>,
        op_id: u64,
    ) -> StateModel {
        StateModel {
            regions: Seq::new(
                self.regions.len(),
                |i: int|
                    if self.regions[i].mask & mask != 0 {
                        self.regions[i].appended(
                            self.regions[i].new_store(
                                t,
                                Synchronize::empty(),
                                value,
                                order,
                                sc_rank,
                                op_id,
                            ),
                        )
                    } else {
                        self.regions[i]
                    },
            ),
            ..self
        }
    }

    /// Some region under `mask` can take no more stores, or, for a
    /// read-modify-write, no more records.
    pub open spec fn worn_out(self, mask: u128, rmw: bool) -> bool {
        exists|i: int|
            0 <= i < self.regions.len() && (#[trigger] self.regions[i]).mask & mask != 0 && (
            self.regions[i].cnt >= u16::MAX || (rmw && self.regions[i].preserved_cnt >= u16::MAX))
    }
}

// ----- lemmas on partitions -----
proof fn lemma_or_facts()
    ensures
        forall|a: u128, b: u128, c: u128| #[trigger] ((a | b) | c) == (a | c) | b,
        forall|a: u128, b: u128, c: u128| #[trigger] (a | (b | c)) == (a | b) | c,
{
    assert forall|a: u128, b: u128, c: u128| #[trigger] ((a | b) | c) == (a | c) | b by {
        assert((a | b) | c == (a | c) | b) by (bit_vector);
    }
    assert forall|a: u128, b: u128, c: u128| #[trigger] (a | (b | c)) == (a | b) | c by {
        assert(a | (b | c) == (a | b) | c) by (bit_vector);
    }
}

proof fn lemma_cut_masks(a: u128, m: u128, b: u128)
    by (bit_vector)
    ensures
        (a & m) | (a & !m) == a,
        (a & m) & (a & !m) == 0,
        a & b == 0 ==> (a & m) & b == 0 && b & (a & m) == 0 && (a & !m) & b == 0 && b & (a & !m)
            == 0,
        b & a == 0 ==> a & b == 0,
        (a & !m) & m == 0,
        (a & m) & !m == 0,
        a & (a & m) == a & m,
        a & !(a & m) == a & !m,
{
}

pub proof fn lemma_owned_prefix(a: Seq<RegionModel>, b: Seq<RegionModel>, n: int)
    requires
        0 <= n <= a.len(),
        n <= b.len(),
        forall|i: int| 0 <= i < n ==> (#[trigger] a[i]).mask == b[i].mask,
    ensures
        owned(a, n) == owned(b, n),
    decreases n,
{
    if n > 0 {
        lemma_owned_prefix(a, b, n - 1);
        assert(a[n - 1].mask == b[n - 1].mask);
    }
}

proof fn lemma_owned_update(a: Seq<RegionModel>, k: int, r: RegionModel, rest: u128, n: int)
    requires
        0 <= k < n <= a.len(),
        a[k].mask == r.mask | rest,
    ensures
        owned(a.update(k, r), n) | rest == owned(a, n),
    decreases n,
{
    lemma_or_facts();
    let b = a.update(k, r);
    if n - 1 == k {
        lemma_owned_prefix(a, b, n - 1);
    } else {
        lemma_owned_update(a, k, r, rest, n - 1);
    }
}

proof fn lemma_cut(regions: Seq<RegionModel>, mask: u128, touched: u16, n: int)
    requires
        0 <= n <= regions.len(),
        forall|i: int| 0 <= i < regions.len() ==> (#[trigger] regions[i]).wf(),
        partition(regions),
        touches_recorded(regions, touched),
    ensures
        ({
            let c = cut_upto(regions, mask, n);
            &&& regions.len() <= c.len()
            &&& forall|i: int| 0 <= i < c.len() ==> (#[trigger] c[i]).wf()
            &&& partition(c)
            &&& touches_recorded(c, touched)
            &&& forall|i: int| n <= i < regions.len() ==> #[trigger] c[i] == regions[i]
            &&& forall|i: int| 0 <= i < n ==> !straddles(#[trigger] c[i], mask)
            &&& forall|i: int| regions.len() <= i < c.len() ==> (#[trigger] c[i]).mask & mask == 0
        }),
    decreases n,
{
    if n > 0 {
        lemma_cut(regions, mask, touched, n - 1);
        let b = cut_upto(regions, mask, n - 1);
        let c = cut_upto(regions, mask, n);
        let r = regions[n - 1];
        assert(b[n - 1] == r);
        if straddles(r, mask) {
            let inside = RegionModel { mask: r.mask & mask, ..r };
            let outside = RegionModel { mask: r.mask & !mask, ..r };
            let u = b.update(n - 1, inside);
            lemma_cut_masks(r.mask, mask, 0);
            lemma_owned_update(b, n - 1, inside, outside.mask, b.len() as int);
            lemma_owned_prefix(u, c, u.len() as int);
            assert forall|i: int, j: int|
                #![trigger c[i], c[j]]
                0 <= i < j < c.len() implies c[i].mask & c[j].mask == 0 by {
                if j < b.len() {
                    assert(b[i].mask & b[j].mask == 0);
                    lemma_cut_masks(r.mask, mask, b[i].mask);
                    lemma_cut_masks(r.mask, mask, b[j].mask);
                } else {
                    if i != n - 1 {
                        if i < n - 1 {
                            assert(b[i].mask & b[n - 1].mask == 0);
                        } else {
                            assert(b[n - 1].mask & b[i].mask == 0);
                        }
                        lemma_cut_masks(r.mask, mask, b[i].mask);
                    }
                }
            }
            assert forall|i: int, k: int, t: int|
                #![trigger c[i].stores[k].first_seen.at(t)]
                0 <= i < c.len() && 0 <= k < c[i].stores.len() && 0 <= t < MAX_THREADS
                    && c[i].stores[k].first_seen.touched_by(t) implies bits::holds(touched, t) by {
                if i < b.len() {
                    assert(b[i].stores[k].first_seen.at(t) == c[i].stores[k].first_seen.at(t));
                } else {
                    assert(b[n - 1].stores[k].first_seen.at(t) == c[i].stores[k].first_seen.at(t));
                }
            }
        }
    }
}

/// After refining, `mask` is a union of whole regions, and the regions still
/// partition the cell.
pub proof fn partition_refines(s: StateModel, mask: u128, i: int)
    requires
        s.wf(),
    ensures
        s.partitioned(mask).wf(),
        0 <= i < s.partitioned(mask).regions.len() ==> !straddles(
            s.partitioned(mask).regions[i],
            mask,
        ),
{
    lemma_cut(s.regions, mask, s.touched_by, s.regions.len() as int);
    if s.regions.len() <= i < s.partitioned(mask).regions.len() {
        assert(s.partitioned(mask).regions[i].mask & mask == 0);
    }
}

/// A full-width mask never cuts anything.
pub proof fn full_width_never_splits(s: StateModel)
    ensures
        s.partitioned(FULL_MASK) == s,
{
    lemma_full_never_cuts(s.regions, s.regions.len() as int);
}

proof fn lemma_full_never_cuts(regions: Seq<RegionModel>, n: int)
    requires
        n <= regions.len(),
    ensures
        cut_upto(regions, FULL_MASK, n) == regions,
    decreases n,
{
    if n > 0 {
        lemma_full_never_cuts(regions, n - 1);
        let m = regions[n - 1].mask;
        assert(m & !0xffff_ffff_ffff_ffff_ffff_ffff_ffff_ffffu128 == 0) by (bit_vector);
    }
}

pub proof fn lemma_covered(s: StateModel, mask: u128, n: int)
    requires
        0 <= n <= s.regions.len(),
        s.regions.len() <= usize::MAX,
    ensures
        s.covered_upto(mask, n).len() <= n,
        forall|k: int|
            0 <= k < s.covered_upto(mask, n).len() ==> {
                let ri = #[trigger] s.covered_upto(mask, n)[k];
                ri < n && s.regions[ri as int].mask & mask != 0
            },
        forall|j: int, k: int|
            #![trigger s.covered_upto(mask, n)[j], s.covered_upto(mask, n)[k]]
            0 <= j < k < s.covered_upto(mask, n).len() ==> s.covered_upto(mask, n)[j]
                < s.covered_upto(mask, n)[k],
    decreases n,
{
    if n > 0 {
        lemma_covered(s, mask, n - 1);
    }
}

impl State {
    /// An uninitialized cell: one full-width empty region. `init` or
    /// `init_deferred` must run before any access.
    pub fn shell() -> (r: State)
        ensures
            r@ == StateModel::blank(),
    {
        let mut regions: Vec<Region> = Vec::new();
        regions.push(Region::new(FULL_MASK));
        let r = State {
            loaded_at: VersionVec::new(),
            unsync_loaded_at: VersionVec::new(),
            stored_at: VersionVec::new(),
            unsync_mut_at: VersionVec::new(),
            is_mutating: false,
            regions,
            op_clock: 0,
            touched_by: 0,
            spares: Vec::new(),
        };
        assert(r@.regions =~= StateModel::blank().regions);
        r
    }

    /// Return a used cell to exactly the shape that `shell` constructs,
    /// keeping its allocations: split regions are parked for reuse, and the
    /// first region is reset to one empty full-width region.
    pub fn recycle(&mut self)
        requires
            old(self)@.regions.len() > 0,
        ensures
            final(self)@ == StateModel::blank(),
    {
        while self.regions.len() > 1
            invariant
                self.regions@.len() > 0,
            decreases self.regions.len(),
        {
            if let Some(region) = self.regions.pop() {
                self.spares.push(region);
            }
        }
        self.regions[0].reset(FULL_MASK);
        self.loaded_at = VersionVec::new();
        self.unsync_loaded_at = VersionVec::new();
        self.stored_at = VersionVec::new();
        self.unsync_mut_at = VersionVec::new();
        self.is_mutating = false;
        self.op_clock = 0;
        self.touched_by = 0;
        assert(self@.regions =~= StateModel::blank().regions);
    }

    /// Initialize a shell as a cell that the active thread creates.
    pub fn init(&mut self, threads: &Threads, value: u128)
        requires
            old(self)@ == StateModel::blank(),
            threads@.running(),
        ensures
            final(self)@ == StateModel::created(threads@, value),
            final(self)@.wf(),
    {
        assert(self@.regions.len() == 1 && self@.regions[0] == RegionModel::blank(FULL_MASK));
        assert(self.regions@.len() == self@.regions.len());
        self.touched_by = bits::bit(threads.active_id());
        // All subsequent accesses must happen-after.
        self.unsync_mut_at.join(&threads.causality());
        assert(self.regions@[0]@ == self@.regions[0]);
        self.regions[0].store(threads, Synchronize::new(), value, Order::Release, None, 0);
        proof {
            broadcast use FirstSeen::lemma_never_at;
            broadcast use FirstSeen::lemma_touched_at;
            broadcast use bits::group_bits;

            assert(self@.regions =~= StateModel::created(threads@, value).regions);
            lemma_single_partition(self@.regions);
        }
    }

    /// Initialize a shell for a cell whose genesis store precedes the
    /// execution rather than belonging to any thread in it.
    pub fn init_deferred(&mut self, value: u128, published: Option<VersionVec>)
        requires
            old(self)@ == StateModel::blank(),
        ensures
            final(self)@ == StateModel::deferred(value, published),
            final(self)@.wf(),
    {
        assert(self@.regions.len() == 1 && self@.regions[0] == RegionModel::blank(FULL_MASK));
        assert(self.regions@.len() == self@.regions.len());
        assert(self.regions@[0]@ == self@.regions[0]);
        self.unsync_mut_at = match published {
            Some(causality) => causality,
            None => VersionVec::new(),
        };
        self.regions[0].store_pre_execution(value);
        proof {
            broadcast use FirstSeen::lemma_never_at;

            let zero = VersionVec::zero();
            VersionVec::below_is_partial_order(zero, zero, zero);
            assert(self@.regions =~= StateModel::deferred(value, published).regions);
            lemma_single_partition(self@.regions);
        }
    }

    /// Refine the region partition so `mask` is a union of whole regions:
    /// split every region the mask cuts into its inside and outside halves. A
    /// split clones the region's history into both halves.
    pub fn ensure_partition(&mut self, mask: u128)
        requires
            old(self)@.wf(),
        ensures
            final(self)@ == old(self)@.partitioned(mask),
            final(self)@.wf(),
    {
        let ghost start = self@;
        proof {
            lemma_cut(start.regions, mask, start.touched_by, start.regions.len() as int);
        }
        if mask == FULL_MASK {
            proof {
                full_width_never_splits(start);
            }
            return ;
        }
        let n: usize = self.regions.len();
        let mut i: usize = 0;
        while i < n
            invariant
                start == old(self)@,
                start.wf(),
                n == start.regions.len(),
                i <= n <= self.regions@.len(),
                self@ == (StateModel {
                    regions: cut_upto(start.regions, mask, i as int),
                    ..start
                }),
            decreases n - i,
        {
            proof {
                lemma_cut(start.regions, mask, start.touched_by, i as int);
                lemma_cut(start.regions, mask, start.touched_by, i as int + 1);
                assert(self@.regions[i as int] == start.regions[i as int]);
                assert(self.regions@[i as int]@ == self@.regions[i as int]);
            }
            let ghost before = self@.regions;
            let rm: u128 = self.regions[i].mask;
            let inside: u128 = rm & mask;
            let outside: u128 = rm & !mask;
            if inside != 0 && outside != 0 {
                let spare: Option<Region> = self.spares.pop();
                let split = self.regions[i].split_off(inside, spare);
                self.regions.push(split);
                proof {
                    lemma_cut_masks(rm, mask, 0);
                    assert(self@.regions =~= cut_upto(start.regions, mask, i as int + 1));
                }
            }
            i += 1;
        }
    }

    /// Indices of the regions covered by `mask` (those whose bits intersect
    /// it).
    pub fn covered(&self, mask: u128) -> (r: Indices)
        requires
            self@.wf(),
        ensures
            r@ == self@.covered(mask),
            r@.len() <= self@.regions.len(),
            forall|k: int|
                0 <= k < r@.len() ==> (#[trigger] r@[k]) < self@.regions.len()
                    && self@.regions[r@[k] as int].mask & mask != 0,
            forall|j: int, k: int|
                #![trigger r@[j], r@[k]]
                0 <= j < k < r@.len() ==> r@[j] < r@[k],
    {
        let mut out: Indices = indices_new();
        let mut i: usize = 0;
        while i < self.regions.len()
            invariant
                self@.wf(),
                i <= self@.regions.len(),
                out@ == self@.covered_upto(mask, i as int),
            decreases self.regions.len() - i,
        {
            assert(self.regions@[i as int]@ == self@.regions[i as int]);
            if self.regions[i].mask & mask != 0 {
                indices_push(&mut out, i);
            }
            i += 1;
        }
        proof {
            lemma_covered(self@, mask, self@.regions.len() as int);
        }
        out
    }

    /// Compose the newest value across every region (each region contributes
    /// the newest store of its own bits).
    pub fn newest_value(&self) -> (r: u128)
        requires
            self@.wf(),
        ensures
            r == self@.value(),
    {
        let mut value: u128 = 0;
        let mut i: usize = 0;
        while i < self.regions.len()
            invariant
                self@.wf(),
                i <= self@.regions.len(),
                value == newest_bits(self@.regions, i as int),
            decreases self.regions.len() - i,
        {
            assert(self.regions@[i as int]@ == self@.regions[i as int]);
            value = value | (self.regions[i].newest_value() & self.regions[i].mask);
            i += 1;
        }
        value
    }

    /// Track an atomic load
    pub fn track_load(&mut self, threads: &Threads) -> (r: Result<(), Fault>)
        requires
            threads@.running(),
        ensures
            match old(self)@.tracked_load(threads@) {
                Ok(s) => r is Ok && final(self)@ == s,
                Err(f) => r == Err::<(), Fault>(f),
            },
    {
        if self.is_mutating {
            return Err(Fault::Mutating);
        }
        let current: VersionVec = threads.causality();
        if let Some(thread) = current.ahead(&self.unsync_mut_at) {
            return Err(Fault::Causality { race: Race::LoadMut, thread });
        }
        self.touched_by = self.touched_by | bits::bit(threads.active_id());
        self.loaded_at.join(&current);
        Ok(())
    }

    /// Track an unsynchronized load
    pub fn track_unsync_load(&mut self, threads: &Threads) -> (r: Result<(), Fault>)
        requires
            threads@.running(),
        ensures
            match old(self)@.tracked_unsync_load(threads@) {
                Ok(s) => r is Ok && final(self)@ == s,
                Err(f) => r == Err::<(), Fault>(f),
            },
    {
        if self.is_mutating {
            return Err(Fault::Mutating);
        }
        let current: VersionVec = threads.causality();
        if let Some(thread) = current.ahead(&self.unsync_mut_at) {
            return Err(Fault::Causality { race: Race::UnsyncLoadMut, thread });
        }
        if let Some(thread) = current.ahead(&self.stored_at) {
            return Err(Fault::Causality { race: Race::UnsyncLoadStore, thread });
        }
        self.unsync_loaded_at.join(&current);
        Ok(())
    }

    /// Track an atomic store
    pub fn track_store(&mut self, threads: &Threads) -> (r: Result<(), Fault>)
        requires
            threads@.running(),
        ensures
            match old(self)@.tracked_store(threads@) {
                Ok(s) => r is Ok && final(self)@ == s,
                Err(f) => r == Err::<(), Fault>(f),
            },
    {
        if self.is_mutating {
            return Err(Fault::Mutating);
        }
        let current: VersionVec = threads.causality();
        if let Some(thread) = current.ahead(&self.unsync_mut_at) {
            return Err(Fault::Causality { race: Race::StoreMut, thread });
        }
        if let Some(thread) = current.ahead(&self.unsync_loaded_at) {
            return Err(Fault::Causality { race: Race::StoreUnsyncLoad, thread });
        }
        self.touched_by = self.touched_by | bits::bit(threads.active_id());
        self.stored_at.join(&current);
        Ok(())
    }

    /// Track an unsynchronized mutation
    pub fn track_unsync_mut(&mut self, threads: &Threads) -> (r: Result<(), Fault>)
        requires
            threads@.running(),
        ensures
            match old(self)@.tracked_unsync_mut(threads@) {
                Ok(s) => r is Ok && final(self)@ == s,
                Err(f) => r == Err::<(), Fault>(f),
            },
    {
        if self.is_mutating {
            return Err(Fault::Mutating);
        }
        let current: VersionVec = threads.causality();
        if let Some(thread) = current.ahead(&self.loaded_at) {
            return Err(Fault::Causality { race: Race::MutLoad, thread });
        }
        if let Some(thread) = current.ahead(&self.unsync_loaded_at) {
            return Err(Fault::Causality { race: Race::MutUnsyncLoad, thread });
        }
        if let Some(thread) = current.ahead(&self.stored_at) {
            return Err(Fault::Causality { race: Race::MutStore, thread });
        }
        if let Some(thread) = current.ahead(&self.unsync_mut_at) {
            return Err(Fault::Causality { race: Race::MutMut, thread });
        }
        self.unsync_mut_at.join(&current);
        Ok(())
    }
}

proof fn lemma_single_partition(regions: Seq<RegionModel>)
    requires
        regions.len() == 1,
        regions[0].mask == FULL_MASK,
    ensures
        partition(regions),
{
    reveal_with_fuel(owned, 2);
    assert(0u128 | 0xffff_ffff_ffff_ffff_ffff_ffff_ffff_ffffu128
        == 0xffff_ffff_ffff_ffff_ffff_ffff_ffff_ffffu128) by (bit_vector);
}

/// A cell with more threads recorded stays valid.
pub proof fn lemma_touched_more(s: StateModel, n: StateModel)
    requires
        s.wf(),
        n.regions == s.regions,
        forall|t: int|
            0 <= t < MAX_THREADS && bits::holds(s.touched_by, t) ==> #[trigger] bits::holds(
                n.touched_by,
                t,
            ),
    ensures
        n.wf(),
{
    assert forall|i: int, k: int, t: int|
        #![trigger n.regions[i].stores[k].first_seen.at(t)]
        0 <= i < n.regions.len() && 0 <= k < n.regions[i].stores.len() && 0 <= t < MAX_THREADS
            && n.regions[i].stores[k].first_seen.touched_by(t) implies bits::holds(
        n.touched_by,
        t,
    ) by {
        assert(s.regions[i].stores[k].first_seen.touched_by(t));
        assert(bits::holds(s.touched_by, t));
    }
}

} // verus!
