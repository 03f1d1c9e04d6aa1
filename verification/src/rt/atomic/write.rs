//! Recording accesses and writing to a cell.
use vstd::prelude::*;

use crate::rt::access::{Access, Accesses};
use crate::rt::atomic::preserve::{lemma_masks_same, lemma_same_history_wf};
use crate::rt::atomic::region::{live, RegionModel};
use crate::rt::atomic::state::{listed, touches_recorded, State, StateModel};
use crate::rt::atomic::store::{FirstSeen, Store};
use crate::rt::bits;
use crate::rt::order::Order;
use crate::rt::synchronize::Synchronize;
use crate::rt::thread::{Action, Threads, ThreadsModel};
use crate::rt::vv::VersionVec;
use crate::rt::MAX_THREADS;

verus! {

/// Append the accesses recorded in a table, in thread order.
fn list_accesses(table: &Accesses, out: &mut Vec<Access>)
    ensures
        final(out)@ == old(out)@ + listed(*table, MAX_THREADS as int),
{
    let mut i: usize = 0;
    while i < MAX_THREADS
        invariant
            i <= MAX_THREADS,
            out@ == old(out)@ + listed(*table, i as int),
        decreases MAX_THREADS - i,
    {
        if let Some(access) = table[i] {
            let ghost before = out@;
            out.push(access);
            assert(out@ =~= old(out)@ + listed(*table, i as int + 1));
        }
        i += 1;
    }
}

/// One more touch of a store keeps the cell's record of touches complete.
pub proof fn lemma_touch_recorded(s: FirstSeen, t: int, v: u16, touched: u16, u: int)
    requires
        0 <= t < MAX_THREADS,
        0 <= u < MAX_THREADS,
        s.touched(t, v).touched_by(u),
        s.touched_by(u) ==> bits::holds(touched, u),
        bits::holds(touched, t),
    ensures
        bits::holds(touched, u),
{
    FirstSeen::lemma_touched_at(s, t, v, u);
}

/// Every store of region `r` has been seen only by threads in `touched`.
pub open spec fn region_touches(r: RegionModel, touched: u16) -> bool {
    forall|k: int, t: int|
        #![trigger r.stores[k].first_seen.at(t)]
        0 <= k < r.stores.len() && 0 <= t < MAX_THREADS && r.stores[k].first_seen.touched_by(t)
            ==> bits::holds(touched, t)
}

pub proof fn lemma_region_touches(regions: Seq<RegionModel>, touched: u16, i: int)
    requires
        touches_recorded(regions, touched),
        0 <= i < regions.len(),
    ensures
        region_touches(regions[i], touched),
{
}

pub proof fn lemma_touches_from_regions(regions: Seq<RegionModel>, touched: u16)
    requires
        forall|i: int| 0 <= i < regions.len() ==> region_touches(#[trigger] regions[i], touched),
    ensures
        touches_recorded(regions, touched),
{
    assert forall|i: int, k: int, t: int|
        #![trigger regions[i].stores[k].first_seen.at(t)]
        0 <= i < regions.len() && 0 <= k < regions[i].stores.len() && 0 <= t < MAX_THREADS
            && regions[i].stores[k].first_seen.touched_by(t) implies bits::holds(touched, t) by {
        assert(region_touches(regions[i], touched));
    }
}

/// Appending a store of a recorded thread keeps the record complete.
pub proof fn lemma_appended_touches(r: RegionModel, s: Store, touched: u16)
    requires
        0 <= r.cnt,
        r.stores.len() == live(r.cnt),
        region_touches(r, touched),
        forall|t: int| 0 <= t < MAX_THREADS && s.first_seen.touched_by(t) ==> bits::holds(touched, t),
    ensures
        region_touches(r.appended(s), touched),
{
    let n = r.appended(s);
    assert forall|k: int, t: int|
        #![trigger n.stores[k].first_seen.at(t)]
        0 <= k < n.stores.len() && 0 <= t < MAX_THREADS && n.stores[k].first_seen.touched_by(
            t,
        ) implies bits::holds(touched, t) by {
        if n.stores[k] != s {
            assert(r.stores[k].first_seen.at(t) == n.stores[k].first_seen.at(t));
        } else {
            assert(s.first_seen.touched_by(t));
        }
    }
}

pub proof fn lemma_new_store_touches(
    r: RegionModel,
    t: ThreadsModel,
    sync: Synchronize,
    value: u128,
    order: Order,
    sc_rank: Option<u32>,
    op_id: u64,
    touched: u16,
)
    requires
        t.running(),
        bits::holds(touched, t.me()),
    ensures
        forall|u: int|
            0 <= u < MAX_THREADS && r.new_store(
                t,
                sync,
                value,
                order,
                sc_rank,
                op_id,
            ).first_seen.touched_by(u) ==> bits::holds(touched, u),
{
    broadcast use FirstSeen::lemma_never_at;
    broadcast use FirstSeen::lemma_touched_at;

}

impl State {
    /// Every thread's last dependent access that shares bits with the action,
    /// region by region. A wide operation's access is recorded in every region
    /// it wrote, so it may be listed more than once.
    pub fn dependent_accesses(&self, action: Action) -> (r: Vec<Access>)
        ensures
            r@ == self@.dependent(action),
    {
        let mask: u128 = action.mask();
        let write: u128 = action.write_mask();
        let mut out: Vec<Access> = Vec::new();
        let mut i: usize = 0;
        while i < self.regions.len()
            invariant
                mask == action.touches(),
                write == action.writes(),
                i <= self@.regions.len(),
                out@ == self@.dependent_upto(action, i as int),
            decreases self.regions.len() - i,
        {
            assert(self.regions@[i as int]@ == self@.regions[i as int]);
            if self.regions[i].mask & mask != 0 {
                let table: Accesses = self.regions[i].dependent_accesses(
                    self.regions[i].mask & write == 0,
                );
                list_accesses(&table, &mut out);
            }
            i += 1;
        }
        out
    }

    /// Sets the thread's last dependent access in every region the operation
    /// touches.
    pub fn set_last_access(
        &mut self,
        action: Action,
        thread_id: usize,
        path_id: usize,
        version: &VersionVec,
    )
        requires
            old(self)@.wf(),
            thread_id < MAX_THREADS,
        ensures
            final(self)@ == old(self)@.accessed(
                action,
                thread_id as int,
                Access { path_id, dpor_vv: *version },
            ),
            final(self)@.wf(),
    {
        let ghost start = self@;
        let ghost want = start.accessed(
            action,
            thread_id as int,
            Access { path_id, dpor_vv: *version },
        );
        let mask: u128 = action.mask();
        let write: u128 = action.write_mask();
        let mut i: usize = 0;
        while i < self.regions.len()
            invariant
                thread_id < MAX_THREADS,
                mask == action.touches(),
                write == action.writes(),
                want == start.accessed(
                    action,
                    thread_id as int,
                    Access { path_id, dpor_vv: *version },
                ),
                i <= self@.regions.len() == start.regions.len(),
                self@ == (StateModel { regions: self@.regions, ..start }),
                forall|k: int| 0 <= k < i ==> #[trigger] self@.regions[k] == want.regions[k],
                forall|k: int|
                    i <= k < self@.regions.len() ==> #[trigger] self@.regions[k]
                        == start.regions[k],
            decreases self.regions.len() - i,
        {
            assert(self.regions@[i as int]@ == self@.regions[i as int]);
            assert(self@.regions[i as int] == start.regions[i as int]);
            let ghost before = self@.regions;
            if self.regions[i].mask & mask != 0 {
                let is_load: bool = self.regions[i].mask & write == 0;
                self.regions[i].set_last_access(is_load, thread_id, path_id, version);
            }
            proof {
                assert(self.regions@[i as int]@ == want.regions[i as int]);
                assert(self@.regions =~= before.update(i as int, want.regions[i as int]));
            }
            i += 1;
        }
        proof {
            assert(self@.regions =~= want.regions);
            assert forall|i: int| 0 <= i < want.regions.len() implies {
                let r = #[trigger] want.regions[i];
                r.wf() && r.mask == start.regions[i].mask && r.stores == start.regions[i].stores
            } by {
                assert(start.regions[i].wf());
            }
            lemma_same_history_wf(start, want.regions);
        }
    }

    /// Overwrite the newest value of every region in place: a non-atomic write
    /// is not a modification-order event.
    pub fn overwrite(&mut self, value: u128)
        requires
            old(self)@.wf(),
        ensures
            final(self)@ == old(self)@.overwritten(value),
            final(self)@.wf(),
    {
        let ghost start = self@;
        let ghost want = start.overwritten(value);
        let mut i: usize = 0;
        while i < self.regions.len()
            invariant
                start.wf(),
                want == start.overwritten(value),
                i <= self@.regions.len() == start.regions.len(),
                self@ == (StateModel { regions: self@.regions, ..start }),
                forall|k: int|
                    0 <= k < i ==> #[trigger] self@.regions[k] == want.regions[k]
                        && want.regions[k].wf(),
                forall|k: int|
                    i <= k < self@.regions.len() ==> #[trigger] self@.regions[k]
                        == start.regions[k],
            decreases self.regions.len() - i,
        {
            assert(self.regions@[i as int]@ == self@.regions[i as int]);
            assert(self@.regions[i as int] == start.regions[i as int]);
            let ghost before = self@.regions;
            self.regions[i].overwrite(value);
            proof {
                assert(self.regions@[i as int]@ == want.regions[i as int]);
                assert(self@.regions =~= before.update(i as int, want.regions[i as int]));
            }
            i += 1;
        }
        proof {
            assert(self@.regions =~= want.regions);
            assert forall|i: int| 0 <= i < want.regions.len() implies #[trigger] want.regions[i].wf()
                && want.regions[i].mask == start.regions[i].mask && region_touches(
                want.regions[i],
                start.touched_by,
            ) by {
                assert(self@.regions[i] == want.regions[i]);
                lemma_region_touches(start.regions, start.touched_by, i);
                let r = want.regions[i];
                assert forall|k: int, t: int|
                    #![trigger r.stores[k].first_seen.at(t)]
                    0 <= k < r.stores.len() && 0 <= t < MAX_THREADS
                        && r.stores[k].first_seen.touched_by(t) implies bits::holds(
                    start.touched_by,
                    t,
                ) by {
                    assert(start.regions[i].stores[k].first_seen.at(t)
                        == r.stores[k].first_seen.at(t));
                }
            }
            lemma_masks_same(start.regions, want.regions);
            lemma_touches_from_regions(want.regions, start.touched_by);
        }
    }

    /// Promote every live store that the thread created into the sequentially
    /// consistent order at `pos`, across every region.
    pub fn promote_sc_writes(&mut self, creator: usize, pos: u32)
        requires
            old(self)@.wf(),
        ensures
            final(self)@ == old(self)@.promoted(creator as int, pos),
            final(self)@.wf(),
    {
        let ghost start = self@;
        let ghost want = start.promoted(creator as int, pos);
        let mut i: usize = 0;
        while i < self.regions.len()
            invariant
                start.wf(),
                want == start.promoted(creator as int, pos),
                i <= self@.regions.len() == start.regions.len(),
                self@ == (StateModel { regions: self@.regions, ..start }),
                forall|k: int|
                    0 <= k < i ==> #[trigger] self@.regions[k] == want.regions[k]
                        && want.regions[k].wf(),
                forall|k: int|
                    i <= k < self@.regions.len() ==> #[trigger] self@.regions[k]
                        == start.regions[k],
            decreases self.regions.len() - i,
        {
            assert(self.regions@[i as int]@ == self@.regions[i as int]);
            assert(self@.regions[i as int] == start.regions[i as int]);
            let ghost before = self@.regions;
            self.regions[i].promote_sc_writes(creator, pos);
            proof {
                assert(self.regions@[i as int]@ == want.regions[i as int]);
                assert(self@.regions =~= before.update(i as int, want.regions[i as int]));
            }
            i += 1;
        }
        proof {
            assert(self@.regions =~= want.regions);
            assert forall|i: int| 0 <= i < want.regions.len() implies #[trigger] want.regions[i].wf()
                && want.regions[i].mask == start.regions[i].mask && region_touches(
                want.regions[i],
                start.touched_by,
            ) by {
                assert(self@.regions[i] == want.regions[i]);
                lemma_region_touches(start.regions, start.touched_by, i);
                let r = want.regions[i];
                assert forall|k: int, t: int|
                    #![trigger r.stores[k].first_seen.at(t)]
                    0 <= k < r.stores.len() && 0 <= t < MAX_THREADS
                        && r.stores[k].first_seen.touched_by(t) implies bits::holds(
                    start.touched_by,
                    t,
                ) by {
                    assert(start.regions[i].stores[k].first_seen.at(t)
                        == r.stores[k].first_seen.at(t));
                }
            }
            lemma_masks_same(start.regions, want.regions);
            lemma_touches_from_regions(want.regions, start.touched_by);
        }
    }

    /// Whether some region under `mask` can take no more stores, or, for a
    /// read-modify-write, no more records.
    pub fn is_worn_out(&self, mask: u128, rmw: bool) -> (r: bool)
        ensures
            r == self@.worn_out(mask, rmw),
    {
        let mut i: usize = 0;
        while i < self.regions.len()
            invariant
                i <= self@.regions.len(),
                forall|k: int|
                    0 <= k < i ==> !((#[trigger] self@.regions[k]).mask & mask != 0 && (
                    self@.regions[k].cnt >= u16::MAX || (rmw && self@.regions[k].preserved_cnt
                        >= u16::MAX))),
            decreases self.regions.len() - i,
        {
            assert(self.regions@[i as int]@ == self@.regions[i as int]);
            if self.regions[i].mask & mask != 0 && (self.regions[i].cnt == u16::MAX || (rmw
                && self.regions[i].preserved_cnt == u16::MAX)) {
                return true;
            }
            i += 1;
        }
        false
    }

    /// Append one store to every region under `mask`, as one event: one
    /// operation id and one position in the sequentially consistent order.
    pub fn store_regions(
        &mut self,
        threads: &Threads,
        mask: u128,
        value: u128,
        order: Order,
        sc_rank: Option<u32>,
        op_id: u64,
    )
        requires
            old(self)@.wf(),
            threads@.running(),
            !old(self)@.worn_out(mask, false),
            bits::holds(old(self)@.touched_by, threads@.me()),
        ensures
            final(self)@ == old(self)@.stored(threads@, mask, value, order, sc_rank, op_id),
            final(self)@.wf(),
    {
        let ghost start = self@;
        let ghost want = start.stored(threads@, mask, value, order, sc_rank, op_id);
        let mut i: usize = 0;
        while i < self.regions.len()
            invariant
                start.wf(),
                threads@.running(),
                !start.worn_out(mask, false),
                want == start.stored(threads@, mask, value, order, sc_rank, op_id),
                i <= self@.regions.len() == start.regions.len(),
                self@ == (StateModel { regions: self@.regions, ..start }),
                forall|k: int|
                    0 <= k < i ==> #[trigger] self@.regions[k] == want.regions[k]
                        && want.regions[k].wf(),
                forall|k: int|
                    i <= k < self@.regions.len() ==> #[trigger] self@.regions[k]
                        == start.regions[k],
            decreases self.regions.len() - i,
        {
            assert(self.regions@[i as int]@ == self@.regions[i as int]);
            assert(self@.regions[i as int] == start.regions[i as int]);
            assert(start.regions[i as int].wf());
            let ghost before = self@.regions;
            if self.regions[i].mask & mask != 0 {
                self.regions[i].store(
                    threads,
                    Synchronize::new(),
                    value,
                    order,
                    sc_rank,
                    op_id,
                );
            }
            proof {
                assert(self.regions@[i as int]@ == want.regions[i as int]);
                assert(self@.regions =~= before.update(i as int, want.regions[i as int]));
            }
            i += 1;
        }
        proof {
            assert(self@.regions =~= want.regions);
            assert forall|i: int| 0 <= i < want.regions.len() implies #[trigger] want.regions[i].wf()
                && want.regions[i].mask == start.regions[i].mask && region_touches(
                want.regions[i],
                start.touched_by,
            ) by {
                assert(self@.regions[i] == want.regions[i]);
                let r = start.regions[i];
                lemma_region_touches(start.regions, start.touched_by, i);
                lemma_new_store_touches(
                    r,
                    threads@,
                    Synchronize::empty(),
                    value,
                    order,
                    sc_rank,
                    op_id,
                    start.touched_by,
                );
                let s = r.new_store(
                    threads@,
                    Synchronize::empty(),
                    value,
                    order,
                    sc_rank,
                    op_id,
                );
                lemma_appended_touches(r, s, start.touched_by);
            }
            lemma_masks_same(start.regions, want.regions);
            lemma_touches_from_regions(want.regions, start.touched_by);
        }
    }
}

} // verus!
