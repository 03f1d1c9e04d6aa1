//! Read-modify-writes.
use vstd::prelude::*;

use crate::rt::atomic::load::{lemma_region_read, lemma_with_region_wf};
use crate::rt::atomic::region::{lemma_appended_wf, lemma_maximal};
use crate::rt::atomic::state::{State, StateModel};
use crate::rt::atomic::store::Store;
use crate::rt::atomic::write::{
    lemma_appended_touches, lemma_new_store_touches, lemma_region_touches, region_touches,
};
use crate::rt::bits;
use crate::rt::claims::Claims;
use crate::rt::fault::Fault;
use crate::rt::order::{is_seq_cst, Order};
use crate::rt::path::{Path, PathModel};
use crate::rt::small::{
    indices_get, indices_len, pairs_get, pairs_len, pairs_new, pairs_push, Indices, Pairs,
};
use crate::rt::thread::{Threads, ThreadsModel};

verus! {

/// The outcome of the read half: the cell, the path, which slot each region
/// read, and the composed value.
#[verifier::ext_equal]
pub struct ReadHalf {
    pub cell: StateModel,
    pub path: PathModel,
    pub reads: Seq<(usize, usize)>,
    pub value: u128,
}

/// The outcome of the write half.
#[verifier::ext_equal]
pub struct WriteHalf {
    pub cell: StateModel,
    pub threads: ThreadsModel,
}

impl StateModel {
    /// The read half over the regions `covered[k..]`: each reads a store with
    /// no known successor.
    pub open spec fn rmw_read(
        self,
        path: PathModel,
        t: ThreadsModel,
        covered: Seq<usize>,
        k: int,
        reads: Seq<(usize, usize)>,
        value: u128,
    ) -> Result<ReadHalf, Fault>
        decreases covered.len() - k,
    {
        if k >= covered.len() {
            Ok(ReadHalf { cell: self, path, reads, value })
        } else {
            let ri = covered[k];
            let r = self.regions[ri as int];
            let pushed = if path.traversed() {
                path.with_load(r.maximal(r.stores.len() as int))
            } else {
                Ok(path)
            };
            match pushed {
                Err(f) => Err(f),
                Ok(p1) => match p1.load_branch() {
                    Err(f) => Err(f),
                    Ok((p2, index)) => if index >= r.stores.len() {
                        Err(Fault::Nondeterministic)
                    } else {
                        self.with_region(ri as int, r.read(t, index)).rmw_read(
                            p2,
                            t,
                            covered,
                            k + 1,
                            reads.push((ri, index as usize)),
                            value | (r.stores[index].value & r.mask),
                        )
                    },
                },
            }
        }
    }

    /// The write half over the reads `reads[j..]`: the regions under
    /// `write_mask` get a store, and the others, whose bits must come back as
    /// they were read, a preserving record.
    pub open spec fn rmw_write(
        self,
        t: ThreadsModel,
        reads: Seq<(usize, usize)>,
        j: int,
        current: u128,
        next: u128,
        write_mask: u128,
        success: Order,
        sc_rank: Option<u32>,
        op_id: u64,
    ) -> Result<WriteHalf, Fault>
        decreases reads.len() - j,
    {
        if j >= reads.len() {
            Ok(WriteHalf { cell: self, threads: t })
        } else {
            let ri = reads[j].0 as int;
            let index = reads[j].1 as int;
            let r = self.regions[ri];
            let t1 = t.synced(r.stores[index].sync.happens_before, success);
            if r.mask & write_mask != 0 {
                self.with_region(
                    ri,
                    r.rmw_committed(t1, index, next, success, sc_rank, op_id),
                ).rmw_write(
                    t1,
                    reads,
                    j + 1,
                    current,
                    next,
                    write_mask,
                    success,
                    sc_rank,
                    op_id,
                )
            } else if next & r.mask != current & r.mask {
                Err(Fault::PreservedChanged)
            } else {
                match self.with_region(
                    ri,
                    r.preserving(t1, index, op_id, write_mask),
                ).prior_reads_checked(ri, write_mask, t.me()) {
                    Err(f) => Err(f),
                    Ok(s) => s.rmw_write(
                        t1,
                        reads,
                        j + 1,
                        current,
                        next,
                        write_mask,
                        success,
                        sc_rank,
                        op_id,
                    ),
                }
            }
        }
    }

    /// The threads after a failed compare over the reads `reads[j..]`: a load
    /// of each.
    pub open spec fn rmw_failed(
        self,
        t: ThreadsModel,
        reads: Seq<(usize, usize)>,
        j: int,
        failure: Order,
    ) -> ThreadsModel
        decreases reads.len() - j,
    {
        if j >= reads.len() {
            t
        } else {
            let r = self.regions[reads[j].0 as int];
            self.rmw_failed(
                t.synced(r.stores[reads[j].1 as int].sync.happens_before, failure),
                reads,
                j + 1,
                failure,
            )
        }
    }

    /// The write half of an operation that computed `next`: the store is
    /// tracked cell-wide, and the operation takes one id and, where it is
    /// sequentially consistent, one position.
    pub open spec fn rmw_stored(
        self,
        t: ThreadsModel,
        reads: Seq<(usize, usize)>,
        current: u128,
        next: u128,
        write_mask: u128,
        success: Order,
    ) -> Result<WriteHalf, Fault> {
        match self.tracked_store(t) {
            Err(f) => Err(f),
            Ok(s) => {
                let sc = success == Order::SeqCst;
                let n = s.next_op();
                n.rmw_write(
                    if sc {
                        t.sc_advanced()
                    } else {
                        t
                    },
                    reads,
                    0,
                    current,
                    next,
                    write_mask,
                    success,
                    if sc {
                        Some(t.sc_clock)
                    } else {
                        None
                    },
                    n.op_clock,
                )
            },
        }
    }
}

/// Every read is of a live slot, and no region is read twice.
pub open spec fn reads_fit(s: StateModel, reads: Seq<(usize, usize)>, j: int) -> bool {
    &&& forall|k: int|
        j <= k < reads.len() ==> {
            let (ri, index) = #[trigger] reads[k];
            &&& ri < s.regions.len()
            &&& index < s.regions[ri as int].stores.len()
            &&& s.regions[ri as int].cnt < u16::MAX
            &&& s.regions[ri as int].preserved_cnt < u16::MAX
        }
    &&& forall|k: int, l: int|
        #![trigger reads[k], reads[l]]
        0 <= k < l < reads.len() ==> reads[k].0 != reads[l].0
}

proof fn lemma_committed(
    s: StateModel,
    t: ThreadsModel,
    ri: int,
    index: int,
    next: u128,
    success: Order,
    sc_rank: Option<u32>,
    op_id: u64,
)
    requires
        s.wf(),
        t.running(),
        bits::holds(s.touched_by, t.me()),
        0 <= ri < s.regions.len(),
        0 <= index < s.regions[ri].stores.len(),
        s.regions[ri].cnt < u16::MAX,
    ensures
        s.with_region(
            ri,
            s.regions[ri].rmw_committed(t, index, next, success, sc_rank, op_id),
        ).wf(),
{
    let r = s.regions[ri];
    assert(r.wf());
    let read = r.stores[index];
    assert(read.wf());
    lemma_appended_wf(r, t, read.sync, next, success, sc_rank, op_id, Some(read.as_read()));
    lemma_region_touches(s.regions, s.touched_by, ri);
    lemma_new_store_touches(r, t, read.sync, next, success, sc_rank, op_id, s.touched_by);
    let store = Store {
        rmw_read: Some(read.as_read()),
        ..r.new_store(t, read.sync, next, success, sc_rank, op_id)
    };
    lemma_appended_touches(r, store, s.touched_by);
    lemma_with_region_wf(s, ri, r.appended(store));
}

impl State {
    /// The read half of a read-modify-write over the regions `covered`.
    pub fn rmw_begin(
        &mut self,
        path: &mut Path,
        claims: &Claims,
        threads: &Threads,
        covered: &Indices,
    ) -> (r: Result<(Pairs, u128), Fault>)
        requires
            old(self)@.wf(),
            old(path)@.inv(claims@),
            threads@.running(),
            bits::holds(old(self)@.touched_by, threads@.me()),
            forall|i: int|
                0 <= i < covered@.len() ==> (#[trigger] covered@[i]) < old(self)@.regions.len()
                    && old(self)@.regions[covered@[i] as int].cnt < u16::MAX
                    && old(self)@.regions[covered@[i] as int].preserved_cnt < u16::MAX,
            forall|j: int, k: int|
                #![trigger covered@[j], covered@[k]]
                0 <= j < k < covered@.len() ==> covered@[j] < covered@[k],
        ensures
            match old(self)@.rmw_read(old(path)@, threads@, covered@, 0, Seq::empty(), 0) {
                Ok(h) => {
                    &&& r matches Ok((reads, value)) && reads@ == h.reads && value == h.value
                    &&& final(self)@ == h.cell
                    &&& final(path)@ == h.path
                    &&& h.cell.wf()
                    &&& h.cell.touched_by == old(self)@.touched_by
                    &&& h.cell.op_clock == old(self)@.op_clock
                    &&& h.path.inv(claims@)
                    &&& reads_fit(h.cell, h.reads, 0)
                },
                Err(f) => r matches Err(g) && f == g,
            },
    {
        let n: usize = indices_len(covered);
        let mut reads: Pairs = pairs_new();
        let mut current: u128 = 0;
        let mut k: usize = 0;
        while k < n
            invariant
                n == covered@.len(),
                k <= n,
                self@.wf(),
                path@.inv(claims@),
                threads@.running(),
                self@.touched_by == old(self)@.touched_by,
                self@.op_clock == old(self)@.op_clock,
                bits::holds(self@.touched_by, threads@.me()),
                self@.regions.len() == old(self)@.regions.len(),
                forall|i: int|
                    0 <= i < self@.regions.len() ==> (#[trigger] self@.regions[i]).cnt == old(
                        self,
                    )@.regions[i].cnt && self@.regions[i].preserved_cnt == old(
                        self,
                    )@.regions[i].preserved_cnt && self@.regions[i].stores.len() == old(
                        self,
                    )@.regions[i].stores.len(),
                forall|i: int|
                    0 <= i < covered@.len() ==> (#[trigger] covered@[i]) < old(self)@.regions.len()
                        && old(self)@.regions[covered@[i] as int].cnt < u16::MAX
                        && old(self)@.regions[covered@[i] as int].preserved_cnt < u16::MAX,
                forall|j: int, k: int|
                    #![trigger covered@[j], covered@[k]]
                    0 <= j < k < covered@.len() ==> covered@[j] < covered@[k],
                reads@.len() == k,
                forall|i: int|
                    0 <= i < k ==> (#[trigger] reads@[i]).0 == covered@[i] && reads@[i].1
                        < self@.regions[covered@[i] as int].stores.len(),
                self@.rmw_read(path@, threads@, covered@, k as int, reads@, current) == old(
                    self,
                )@.rmw_read(old(path)@, threads@, covered@, 0, Seq::empty(), 0),
            decreases n - k,
        {
            let ri: usize = indices_get(covered, k);
            assert(self.regions@[ri as int]@ == self@.regions[ri as int]);
            let ghost region = self@.regions[ri as int];
            assert(region.wf());
            if path.is_traversed() {
                let seed: Vec<u8> = self.regions[ri].match_rmw_to_stores();
                proof {
                    lemma_maximal(region, region.stores.len() as int);
                }
                match path.push_load(claims, &seed) {
                    Ok(()) => {},
                    Err(f) => {
                        return Err(f);
                    },
                }
            }
            let index: usize = match path.branch_load(claims) {
                Ok(index) => index,
                Err(f) => {
                    return Err(f);
                },
            };
            if index >= self.regions[ri].stores.len() {
                return Err(Fault::Nondeterministic);
            }
            proof {
                lemma_region_read(self@, threads@, ri as int, index as int);
            }
            let ghost before = self@;
            let mask: u128 = self.regions[ri].mask;
            let v: u128 = self.regions[ri].rmw_read(threads, index);
            proof {
                assert(self@.regions =~= before.regions.update(
                    ri as int,
                    self.regions@[ri as int]@,
                ));
            }
            current = current | (v & mask);
            pairs_push(&mut reads, (ri, index));
            k += 1;
        }
        Ok((reads, current))
    }

    /// The write half of a read-modify-write that computed `next` from
    /// `current`.
    pub fn rmw_finish(
        &mut self,
        threads: &mut Threads,
        reads: &Pairs,
        current: u128,
        next: u128,
        write_mask: u128,
        success: Order,
    ) -> (r: Result<(), Fault>)
        requires
            old(self)@.wf(),
            old(threads)@.running(),
            bits::holds(old(self)@.touched_by, old(threads)@.me()),
            old(self)@.op_clock < u64::MAX,
            success == Order::SeqCst ==> old(threads)@.sc_clock < u32::MAX,
            reads_fit(old(self)@, reads@, 0),
        ensures
            match old(self)@.rmw_stored(
                old(threads)@,
                reads@,
                current,
                next,
                write_mask,
                success,
            ) {
                Ok(h) => {
                    &&& r is Ok
                    &&& final(self)@ == h.cell
                    &&& final(threads)@ == h.threads
                    &&& h.cell.wf()
                    &&& h.threads.running()
                },
                Err(f) => r == Err::<(), Fault>(f),
            },
    {
        // Tracked even when `write_mask` is empty: the hardware operation owns
        // the line and writes it.
        match self.track_store(threads) {
            Ok(()) => {},
            Err(f) => {
                return Err(f);
            },
        }
        proof {
            broadcast use bits::group_bits;

            let s = old(self)@.tracked_store(old(threads)@)->Ok_0;
            crate::rt::atomic::state::lemma_touched_more(old(self)@, s);
        }
        let sc_rank: Option<u32> = if is_seq_cst(success) {
            Some(threads.next_sc_pos())
        } else {
            None
        };
        self.op_clock = self.op_clock + 1;
        let op_id: u64 = self.op_clock;
        let me: usize = threads.active_id();
        let ghost target = self@.rmw_write(
            threads@,
            reads@,
            0,
            current,
            next,
            write_mask,
            success,
            sc_rank,
            op_id,
        );
        assert(self@.regions == old(self)@.regions);
        let n: usize = pairs_len(reads);
        let mut j: usize = 0;
        while j < n
            invariant
                n == reads@.len(),
                j <= n,
                self@.wf(),
                threads@.running(),
                threads@.me() == me,
                bits::holds(self@.touched_by, me as int),
                reads_fit(self@, reads@, j as int),
                self@.rmw_write(
                    threads@,
                    reads@,
                    j as int,
                    current,
                    next,
                    write_mask,
                    success,
                    sc_rank,
                    op_id,
                ) == target,
                target == old(self)@.rmw_stored(
                    old(threads)@,
                    reads@,
                    current,
                    next,
                    write_mask,
                    success,
                ),
            decreases n - j,
        {
            let pair: (usize, usize) = pairs_get(reads, j);
            let ri: usize = pair.0;
            let index: usize = pair.1;
            assert(reads@[j as int] == pair);
            assert(self.regions@[ri as int]@ == self@.regions[ri as int]);
            let ghost before = self@;
            let ghost t0 = threads@;
            let ghost region = self@.regions[ri as int];
            assert(region.wf());
            let mask: u128 = self.regions[ri].mask;
            if mask & write_mask != 0 {
                self.regions[ri].rmw_commit(threads, index, next, success, sc_rank, op_id);
                proof {
                    assert(self@.regions =~= before.regions.update(
                        ri as int,
                        self.regions@[ri as int]@,
                    ));
                    lemma_committed(
                        before,
                        threads@,
                        ri as int,
                        index as int,
                        next,
                        success,
                        sc_rank,
                        op_id,
                    );
                }
            } else {
                // The preservation claim, enforced rather than trusted.
                if next & mask != current & mask {
                    return Err(Fault::PreservedChanged);
                }
                self.regions[ri].preserve_commit(threads, index, success, op_id, write_mask);
                proof {
                    let r = region.preserving(threads@, index as int, op_id, write_mask);
                    assert(self@.regions =~= before.regions.update(ri as int, r));
                    lemma_region_touches(before.regions, before.touched_by, ri as int);
                    assert(region_touches(r, before.touched_by)) by {
                        assert(r.stores == region.stores);
                    }
                    lemma_with_region_wf(before, ri as int, r);
                }
                match self.check_preserved_against_prior_reads(ri, write_mask, me) {
                    Ok(()) => {},
                    Err(f) => {
                        return Err(f);
                    },
                }
            }
            assert forall|k: int| j + 1 <= k < reads@.len() implies {
                let (rk, ik) = #[trigger] reads@[k];
                &&& rk < self@.regions.len()
                &&& ik < self@.regions[rk as int].stores.len()
                &&& self@.regions[rk as int].cnt < u16::MAX
                &&& self@.regions[rk as int].preserved_cnt < u16::MAX
            } by {
                assert(reads@[j as int].0 != reads@[k].0);
                assert(before.regions[reads@[k].0 as int] == self@.regions[reads@[k].0 as int]);
            }
            j += 1;
        }
        Ok(())
    }

    /// The failed path: a load of every region that was read.
    pub fn rmw_abort(&self, threads: &mut Threads, reads: &Pairs, failure: Order)
        requires
            old(threads)@.running(),
            reads_fit(self@, reads@, 0),
        ensures
            final(threads)@ == self@.rmw_failed(old(threads)@, reads@, 0, failure),
            final(threads)@.running(),
    {
        let n: usize = pairs_len(reads);
        let mut j: usize = 0;
        while j < n
            invariant
                n == reads@.len(),
                j <= n,
                threads@.running(),
                reads_fit(self@, reads@, 0),
                self@.rmw_failed(threads@, reads@, j as int, failure) == self@.rmw_failed(
                    old(threads)@,
                    reads@,
                    0,
                    failure,
                ),
            decreases n - j,
        {
            let pair: (usize, usize) = pairs_get(reads, j);
            assert(reads@[j as int] == pair);
            assert(self.regions@[pair.0 as int]@ == self@.regions[pair.0 as int]);
            self.regions[pair.0].rmw_fail(threads, pair.1, failure);
            j += 1;
        }
    }
}

} // verus!
