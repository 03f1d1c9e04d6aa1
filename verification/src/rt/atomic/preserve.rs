//! Lanes that a wide read-modify-write carries over unchanged.
use vstd::prelude::*;

use crate::rt::atomic::region::{PreservedOp, Region, RegionModel};
use crate::rt::atomic::state::{partition, readers_under, State, StateModel};
use crate::rt::bits;
use crate::rt::fault::Fault;
use crate::rt::MAX_THREADS;

verus! {

/// Regions that differ only in their reader sets stay valid.
pub proof fn lemma_same_history_wf(s: StateModel, regions: Seq<RegionModel>)
    requires
        s.wf(),
        regions.len() == s.regions.len(),
        forall|i: int|
            0 <= i < regions.len() ==> {
                let r = #[trigger] regions[i];
                r.wf() && r.mask == s.regions[i].mask && r.stores == s.regions[i].stores
            },
    ensures
        (StateModel { regions, ..s }).wf(),
{
    lemma_masks_same(s.regions, regions);
    assert forall|i: int, k: int, t: int|
        #![trigger regions[i].stores[k].first_seen.at(t)]
        0 <= i < regions.len() && 0 <= k < regions[i].stores.len() && 0 <= t < MAX_THREADS
            && regions[i].stores[k].first_seen.touched_by(t) implies bits::holds(
        s.touched_by,
        t,
    ) by {
        assert(s.regions[i].stores[k].first_seen.at(t) == regions[i].stores[k].first_seen.at(t));
    }
}

/// A partition depends on the masks alone.
pub proof fn lemma_masks_same(a: Seq<RegionModel>, b: Seq<RegionModel>)
    requires
        partition(a),
        b.len() == a.len(),
        forall|i: int| 0 <= i < b.len() ==> (#[trigger] b[i]).mask == a[i].mask,
    ensures
        partition(b),
{
    crate::rt::atomic::state::lemma_owned_prefix(a, b, a.len() as int);
    assert forall|i: int, j: int|
        #![trigger b[i], b[j]]
        0 <= i < j < b.len() implies b[i].mask & b[j].mask == 0 by {
        assert(a[i].mask & a[j].mask == 0);
    }
    assert forall|i: int| 0 <= i < b.len() implies (#[trigger] b[i]).mask != 0 by {
        assert(a[i].mask != 0);
    }
}

impl Region {
    /// Whether an operation over `mask` by `reader` cannot reach the bits that
    /// some preserving operation of another thread wrote.
    fn is_unrouted(&self, mask: u128, reader: usize) -> (r: bool)
        ensures
            r == self@.unrouted(mask, reader as int),
    {
        let mut i: usize = 0;
        while i < self.preserved.len()
            invariant
                i <= self@.preserved.len(),
                forall|k: int|
                    0 <= k < i ==> !((#[trigger] self@.preserved[k]).write_mask & mask == 0
                        && self@.preserved[k].creator != reader),
            decreases self.preserved.len() - i,
        {
            let p: PreservedOp = self.preserved[i];
            assert(p == self@.preserved[i as int]);
            if p.write_mask & mask == 0 && p.creator != reader {
                return true;
            }
            i += 1;
        }
        false
    }
}

impl State {
    /// Guard the one behavior that a preserving read-modify-write gives up:
    /// the elided identity write cannot be read from, so an acquiring read
    /// confined to the preserved bits can no longer synchronize with it.
    ///
    /// This is only the read end. The other end is
    /// [`State::check_preserved_against_prior_reads`], and both are needed:
    /// the two operations are independent, so the search may explore either
    /// order and only that order.
    pub fn check_preserved_scope(&mut self, mask: u128, acquiring: bool, reader: usize) -> (r:
        Result<(), Fault>)
        requires
            old(self)@.wf(),
            reader < MAX_THREADS,
        ensures
            match old(self)@.scope_checked(mask, acquiring, reader as int) {
                Ok(s) => r is Ok && final(self)@ == s && s.wf(),
                Err(f) => r == Err::<(), Fault>(f),
            },
    {
        let ghost start = self@;
        let ghost want = Seq::new(
            start.regions.len(),
            |i: int|
                if start.regions[i].mask & mask != 0 {
                    start.regions[i].scoped(mask, acquiring, reader as int)
                } else {
                    start.regions[i]
                },
        );
        let mut i: usize = 0;
        while i < self.regions.len()
            invariant
                reader < MAX_THREADS,
                start == old(self)@,
                start.wf(),
                want == Seq::new(
                    start.regions.len(),
                    |i: int|
                        if start.regions[i].mask & mask != 0 {
                            start.regions[i].scoped(mask, acquiring, reader as int)
                        } else {
                            start.regions[i]
                        },
                ),
                i <= self@.regions.len() == start.regions.len(),
                self@ == (StateModel { regions: self@.regions, ..start }),
                forall|k: int| 0 <= k < i ==> #[trigger] self@.regions[k] == want[k],
                forall|k: int|
                    i <= k < self@.regions.len() ==> #[trigger] self@.regions[k]
                        == start.regions[k],
                acquiring ==> forall|k: int|
                    0 <= k < i && (#[trigger] start.regions[k]).mask & mask != 0
                        ==> !start.regions[k].unrouted(mask, reader as int),
            decreases self.regions.len() - i,
        {
            assert(self.regions@[i as int]@ == self@.regions[i as int]);
            assert(self@.regions[i as int] == start.regions[i as int]);
            let ghost before = self@.regions;
            if self.regions[i].mask & mask != 0 {
                let bit: u16 = bits::bit(reader);
                let unrouted: bool = self.regions[i].is_unrouted(mask, reader);
                if unrouted && acquiring {
                    assert(start.regions[i as int].unrouted(mask, reader as int));
                    return Err(Fault::PreservedAcquire);
                }
                let region = &mut self.regions[i];
                region.readers = region.readers | bit;
                if acquiring {
                    region.acquiring_readers = region.acquiring_readers | bit;
                }
                if unrouted {
                    region.unrouted_readers = region.unrouted_readers | bit;
                }
            }
            proof {
                assert(self.regions@[i as int]@ == want[i as int]);
                assert(self@.regions =~= before.update(i as int, want[i as int]));
            }
            i += 1;
        }
        proof {
            assert(self@.regions =~= want);
            lemma_same_history_wf(start, want);
        }
        Ok(())
    }

    /// The threads that read a region under `mask`.
    fn readers_of(&self, mask: u128, acquiring: bool) -> (r: u16)
        ensures
            r == readers_under(self@.regions, mask, acquiring, self@.regions.len() as int),
    {
        let mut out: u16 = 0;
        let mut i: usize = 0;
        while i < self.regions.len()
            invariant
                i <= self@.regions.len(),
                out == readers_under(self@.regions, mask, acquiring, i as int),
            decreases self.regions.len() - i,
        {
            assert(self.regions@[i as int]@ == self@.regions[i as int]);
            if self.regions[i].mask & mask != 0 {
                if acquiring {
                    out = out | self.regions[i].acquiring_readers;
                } else {
                    out = out | self.regions[i].readers;
                }
            }
            i += 1;
        }
        out
    }

    /// The other end of [`State::check_preserved_scope`]: reads of the carried
    /// lane that already happened, which the operation is about to render
    /// unroutable.
    ///
    /// `ri` is the region being preserved and `write_mask` the bits that the
    /// operation does write. A prior reader is routed if it also read some
    /// region under `write_mask`; for the acquire test it must have acquired
    /// there.
    pub fn check_preserved_against_prior_reads(
        &mut self,
        ri: usize,
        write_mask: u128,
        creator: usize,
    ) -> (r: Result<(), Fault>)
        requires
            old(self)@.wf(),
            ri < old(self)@.regions.len(),
            creator < MAX_THREADS,
        ensures
            match old(self)@.prior_reads_checked(ri as int, write_mask, creator as int) {
                Ok(s) => r is Ok && final(self)@ == s && s.wf(),
                Err(f) => r == Err::<(), Fault>(f),
            },
    {
        assert(self.regions@[ri as int]@ == self@.regions[ri as int]);
        let mine: u16 = bits::bit(creator);
        let readers: u16 = self.regions[ri].readers & !mine;
        let acquirers: u16 = self.regions[ri].acquiring_readers & !mine;
        if readers == 0 {
            return Ok(());
        }
        let routed: u16 = self.readers_of(write_mask, false);
        let acq_routed: u16 = self.readers_of(write_mask, true);
        if acquirers & !acq_routed != 0 {
            return Err(Fault::PreservedAcquired);
        }
        let region = &mut self.regions[ri];
        region.unrouted_readers = region.unrouted_readers | (readers & !routed);
        proof {
            let want = old(self)@.prior_reads_checked(ri as int, write_mask, creator as int)->Ok_0;
            assert(self@.regions =~= want.regions);
            assert forall|i: int| 0 <= i < want.regions.len() implies {
                let r = #[trigger] want.regions[i];
                r.wf() && r.mask == old(self)@.regions[i].mask && r.stores == old(
                    self,
                )@.regions[i].stores
            } by {
                assert(old(self)@.regions[i].wf());
            }
            lemma_same_history_wf(old(self)@, want.regions);
        }
        Ok(())
    }

    /// True when the thread holds a read of some preserved lane of this cell
    /// that an acquire fence would try, and fail, to draw causality from.
    pub fn has_unrouted_reader(&self, thread: usize) -> (r: bool)
        requires
            thread < MAX_THREADS,
        ensures
            r == self@.holds_unrouted(thread as int),
    {
        let mut i: usize = 0;
        while i < self.regions.len()
            invariant
                thread < MAX_THREADS,
                i <= self@.regions.len(),
                forall|k: int|
                    0 <= k < i ==> !bits::holds(
                        (#[trigger] self@.regions[k]).unrouted_readers,
                        thread as int,
                    ),
            decreases self.regions.len() - i,
        {
            assert(self.regions@[i as int]@ == self@.regions[i as int]);
            if bits::test(self.regions[i].unrouted_readers, thread) {
                return true;
            }
            i += 1;
        }
        false
    }
}

} // verus!
