//! Loads from a cell: the stores that each region may return, and the
//! snapshots that they compose to.
use vstd::prelude::*;

use crate::rt::atomic::preserve::lemma_masks_same;
use crate::rt::atomic::region::{
    lemma_read_wf, lemma_readable, OpPin, PreservedOp, Region, RegionModel,
};
use crate::rt::atomic::state::{State, StateModel};
use crate::rt::atomic::store::{mo_before, ordered, Store};
use crate::rt::atomic::write::{
    lemma_region_touches, lemma_touch_recorded, lemma_touches_from_regions, region_touches,
};
use crate::rt::bits;
use crate::rt::claims::Claims;
use crate::rt::fault::Fault;
use crate::rt::order::{acquires, Order};
use crate::rt::path::{Path, PathModel};
use crate::rt::small::{
    indices_get, indices_len, pairs_clone, pairs_get, pairs_len, pairs_new, pairs_push,
    resolved_len, resolved_new, resolved_truncate, Indices, Pairs, Resolved,
};
use crate::rt::thread::{Threads, ThreadsModel};
use crate::rt::vv::VersionVec;
use crate::rt::{MAX_ATOMIC_HISTORY, MAX_THREADS};

verus! {

/// The reader-side state a multi-region load filters its candidates against.
///
/// A wide load resolves one region at a time, and reading a region *changes*
/// what the regions still to come may read: the store's release view joins the
/// reader's causality, and the store becomes seen. The walk therefore cannot
/// filter a later region against the state at load entry; it must filter
/// against the state the earlier regions will have established. This is that
/// projection.
pub struct LoadView {
    /// The reader's causality, projected forward over the prefix.
    causality: VersionVec,
    /// `(region, slot)` pairs the load has committed to reading.
    touched: Pairs,
}

/// What a projected view is.
#[verifier::ext_equal]
pub struct ViewModel {
    pub causality: VersionVec,
    pub touched: Seq<(usize, usize)>,
}

impl View for LoadView {
    type V = ViewModel;

    closed spec fn view(&self) -> ViewModel {
        ViewModel { causality: self.causality, touched: self.touched@ }
    }
}

impl ViewModel {
    /// The state as of the load, before any region is resolved.
    pub open spec fn at_entry(t: ThreadsModel) -> ViewModel {
        ViewModel { causality: t.current().causality, touched: Seq::empty() }
    }

    /// The state after the load additionally reads slot `ci` of region `ri`.
    pub open spec fn extended(self, r: RegionModel, ri: usize, ci: usize, order: Order) -> ViewModel {
        ViewModel {
            causality: if order.joins() {
                self.causality.joined(r.stores[ci as int].sync.happens_before)
            } else {
                self.causality
            },
            touched: self.touched.push((ri, ci)),
        }
    }

    /// The reader has seen slot `gi` of region `rj`: through causality, or
    /// because this same load already committed to reading it.
    pub open spec fn saw(self, s: Store, rj: usize, gi: usize) -> bool {
        s.first_seen.seen_in(self.causality) || self.touched.contains((rj, gi))
    }
}

impl LoadView {
    /// The state as of the load, before any region is resolved.
    fn entry(threads: &Threads) -> (r: LoadView)
        requires
            threads@.running(),
        ensures
            r@ == ViewModel::at_entry(threads@),
    {
        LoadView { causality: threads.causality(), touched: pairs_new() }
    }

    /// The state after this load additionally reads slot `ci` of region `ri`.
    fn extend(&self, region: &Region, ri: usize, ci: usize, order: Order) -> (r: LoadView)
        requires
            ci < region@.stores.len(),
        ensures
            r@ == self@.extended(region@, ri, ci, order),
    {
        let mut causality: VersionVec = self.causality;
        if acquires(order) {
            let store: Store = region.stores[ci];
            causality.join(&store.sync.happens_before);
        }
        let mut touched: Pairs = pairs_clone(&self.touched);
        pairs_push(&mut touched, (ri, ci));
        LoadView { causality, touched }
    }

    /// Has the reader seen slot `gi` of region `rj`?
    fn is_seen(&self, store: &Store, rj: usize, gi: usize) -> (r: bool)
        ensures
            r == self@.saw(*store, rj, gi),
    {
        if store.first_seen.is_seen_in(&self.causality) {
            return true;
        }
        let n: usize = pairs_len(&self.touched);
        let mut i: usize = 0;
        while i < n
            invariant
                n == self@.touched.len(),
                i <= n,
                forall|k: int| 0 <= k < i ==> #[trigger] self@.touched[k] != (rj, gi),
            decreases n - i,
        {
            let (a, b) = pairs_get(&self.touched, i);
            if a == rj && b == gi {
                assert(self@.touched[i as int] == (rj, gi));
                return true;
            }
            i += 1;
        }
        false
    }
}

/// The outcome of a load.
#[verifier::ext_equal]
pub struct Composed {
    pub cell: StateModel,
    pub path: PathModel,
    pub threads: ThreadsModel,
    pub value: u128,
}

impl StateModel {
    /// The reader has seen, in region `rj`, a store that operation `op_id`
    /// wrote there or one after it.
    pub open spec fn op_seen_in(self, rj: int, op_id: u64, view: ViewModel) -> bool {
        self.regions[rj].pin(op_id) matches Some(pin) && exists|g: int|
            0 <= g < self.regions[rj].stores.len() && self.regions[rj].pin_seen(pin, g)
                && view.saw(#[trigger] self.regions[rj].stores[g], rj as usize, g as usize)
    }

    /// The active thread has observed operation `op_id` through some region
    /// other than `ri`: it read the operation through another lane, or wrote
    /// that other lane past it.
    pub open spec fn op_seen_elsewhere(self, ri: int, op_id: u64, view: ViewModel) -> bool {
        exists|rj: int|
            0 <= rj < self.regions.len() && rj != ri && #[trigger] self.op_seen_in(rj, op_id, view)
    }

    /// Reading slot `c` of region `ri` would travel behind a whole-cell
    /// operation that the thread has already observed through another region.
    pub open spec fn floored(self, ri: int, view: ViewModel, c: int) -> bool {
        let r = self.regions[ri];
        ||| exists|f: int|
            0 <= f < r.stores.len() && ordered(r.stores[c], #[trigger] r.stores[f])
                && self.op_seen_elsewhere(ri, r.stores[f].op_id, view)
        ||| exists|p: int|
            0 <= p < r.preserved.len() && (r.store_slot(
                (#[trigger] r.preserved[p]).read.read_id,
                0,
            ) matches Some(s) && ordered(r.stores[c], r.stores[s])) && self.op_seen_elsewhere(
                ri,
                r.preserved[p].op_id,
                view,
            )
    }

    /// The first `n` candidates of region `ri` that no floor excludes.
    pub open spec fn unfloored(self, ri: int, view: ViewModel, seed: Seq<u8>, n: int) -> Seq<u8>
        decreases n,
    {
        if n <= 0 {
            Seq::empty()
        } else {
            let before = self.unfloored(ri, view, seed, n - 1);
            if self.floored(ri, view, seed[n - 1] as int) {
                before
            } else {
                before.push(seed[n - 1])
            }
        }
    }

    /// The stores of region `ri` that a load may return. With `floor`, the
    /// whole-cell-coherent projection that a typed lane load promises.
    pub open spec fn candidates(
        self,
        t: ThreadsModel,
        ri: int,
        view: ViewModel,
        order: Order,
        floor: bool,
    ) -> Seq<u8> {
        let r = self.regions[ri];
        let base = r.readable(t, view.causality, order, r.stores.len() as int);
        if floor && self.regions.len() > 1 {
            self.unfloored(ri, view, base, base.len() as int)
        } else {
            base
        }
    }

    /// The regions `covered[k..]` of a load can be assigned stores that agree
    /// with the visibility fixed so far.
    pub open spec fn completes(
        self,
        t: ThreadsModel,
        covered: Seq<usize>,
        k: int,
        order: Order,
        floor: bool,
        resolved: Seq<(u64, bool)>,
        view: ViewModel,
    ) -> bool
        decreases covered.len() - k, 1int, 0int,
    {
        if k >= covered.len() {
            true
        } else {
            self.some_completes(
                t,
                covered,
                k,
                order,
                floor,
                resolved,
                view,
                self.candidates(t, covered[k] as int, view, order, floor),
                0,
            )
        }
    }

    /// The same, where region `covered[k]` takes one of `seed[i..]`.
    pub open spec fn some_completes(
        self,
        t: ThreadsModel,
        covered: Seq<usize>,
        k: int,
        order: Order,
        floor: bool,
        resolved: Seq<(u64, bool)>,
        view: ViewModel,
        seed: Seq<u8>,
        i: int,
    ) -> bool
        decreases covered.len() - k, 0int, seed.len() - i,
    {
        if i >= seed.len() || k >= covered.len() {
            false
        } else {
            let rj = covered[k];
            let r = self.regions[rj as int];
            ||| r.resolve(seed[i] as int, resolved) matches Some(after) && self.completes(
                t,
                covered,
                k + 1,
                order,
                floor,
                after,
                view.extended(r, rj, seed[i] as usize, order),
            )
            ||| self.some_completes(
                t,
                covered,
                k,
                order,
                floor,
                resolved,
                view,
                seed,
                i + 1,
            )
        }
    }

    /// Slot `ci` of region `covered[k]` agrees with the visibility fixed so
    /// far, and the regions after it can be completed.
    pub open spec fn consistent(
        self,
        t: ThreadsModel,
        covered: Seq<usize>,
        k: int,
        order: Order,
        floor: bool,
        resolved: Seq<(u64, bool)>,
        ci: u8,
    ) -> bool {
        let ri = covered[k];
        let r = self.regions[ri as int];
        r.resolve(ci as int, resolved) matches Some(after) && self.completes(
            t,
            covered,
            k + 1,
            order,
            floor,
            after,
            ViewModel::at_entry(t).extended(r, ri, ci as usize, order),
        )
    }

    /// The first `n` candidates that are consistent.
    pub open spec fn consistent_upto(
        self,
        t: ThreadsModel,
        covered: Seq<usize>,
        k: int,
        order: Order,
        floor: bool,
        resolved: Seq<(u64, bool)>,
        seed: Seq<u8>,
        n: int,
    ) -> Seq<u8>
        decreases n,
    {
        if n <= 0 {
            Seq::empty()
        } else {
            let before = self.consistent_upto(t, covered, k, order, floor, resolved, seed, n - 1);
            if self.consistent(t, covered, k, order, floor, resolved, seed[n - 1]) {
                before.push(seed[n - 1])
            } else {
                before
            }
        }
    }

    /// The stores that region `covered[k]` offers to a load.
    ///
    /// A multi-region load returns a single consistent snapshot: wide
    /// operations are seen all-or-none. Only the stores with which the regions
    /// still to come can be completed are offered.
    pub open spec fn offered(
        self,
        t: ThreadsModel,
        covered: Seq<usize>,
        k: int,
        order: Order,
        floor: bool,
        resolved: Seq<(u64, bool)>,
    ) -> Result<Seq<u8>, Fault> {
        let seed = self.candidates(
            t,
            covered[k] as int,
            ViewModel::at_entry(t),
            order,
            floor,
        );
        if floor && self.regions.len() > 1 && seed.len() == 0 {
            Err(Fault::NoReadableStore)
        } else if covered.len() > 1 {
            let kept = self.consistent_upto(
                t,
                covered,
                k,
                order,
                floor,
                resolved,
                seed,
                seed.len() as int,
            );
            if kept.len() == 0 {
                Err(Fault::TornLoad)
            } else {
                Ok(kept)
            }
        } else {
            Ok(seed)
        }
    }

    /// A load of the regions `covered[k..]`: one branch of the path per
    /// region, over the stores that the region offers.
    pub open spec fn composed(
        self,
        path: PathModel,
        t: ThreadsModel,
        covered: Seq<usize>,
        k: int,
        order: Order,
        floor: bool,
        resolved: Seq<(u64, bool)>,
        value: u128,
    ) -> Result<Composed, Fault>
        decreases covered.len() - k,
    {
        if k >= covered.len() {
            Ok(Composed { cell: self, path, threads: t, value })
        } else {
            let pushed = if path.traversed() {
                match self.offered(t, covered, k, order, floor, resolved) {
                    Ok(seed) => path.with_load(seed),
                    Err(f) => Err(f),
                }
            } else {
                Ok(path)
            };
            match pushed {
                Err(f) => Err(f),
                Ok(p1) => match p1.load_branch() {
                    Err(f) => Err(f),
                    Ok((p2, index)) => {
                        let ri = covered[k] as int;
                        let r = self.regions[ri];
                        let fixed = if covered.len() > 1 {
                            r.resolve(index, resolved)
                        } else {
                            Some(resolved)
                        };
                        if index >= r.stores.len() {
                            Err(Fault::Nondeterministic)
                        } else {
                            match fixed {
                                None => Err(Fault::TornLoad),
                                Some(after) => self.with_region(ri, r.read(t, index)).composed(
                                    p2,
                                    t.synced(r.stores[index].sync.happens_before, order),
                                    covered,
                                    k + 1,
                                    order,
                                    floor,
                                    after,
                                    value | (r.stores[index].value & r.mask),
                                ),
                            }
                        }
                    },
                },
            }
        }
    }
}

pub proof fn lemma_with_region_wf(s: StateModel, i: int, r: RegionModel)
    requires
        s.wf(),
        0 <= i < s.regions.len(),
        r.wf(),
        r.mask == s.regions[i].mask,
        region_touches(r, s.touched_by),
    ensures
        s.with_region(i, r).wf(),
{
    let n = s.with_region(i, r);
    assert forall|k: int| 0 <= k < n.regions.len() implies region_touches(
        #[trigger] n.regions[k],
        s.touched_by,
    ) by {
        if k != i {
            lemma_region_touches(s.regions, s.touched_by, k);
        }
    }
    lemma_touches_from_regions(n.regions, s.touched_by);
    lemma_masks_same(s.regions, n.regions);
}

/// Reading a store keeps the cell valid.
pub proof fn lemma_region_read(s: StateModel, t: ThreadsModel, ri: int, index: int)
    requires
        s.wf(),
        t.running(),
        bits::holds(s.touched_by, t.me()),
        0 <= ri < s.regions.len(),
        0 <= index < s.regions[ri].stores.len(),
    ensures
        s.with_region(ri, s.regions[ri].read(t, index)).wf(),
{
    let r = s.regions[ri];
    let n = r.read(t, index);
    assert(r.wf());
    lemma_read_wf(r, t, index);
    lemma_region_touches(s.regions, s.touched_by, ri);
    assert forall|k: int, u: int|
        #![trigger n.stores[k].first_seen.at(u)]
        0 <= k < n.stores.len() && 0 <= u < MAX_THREADS && n.stores[k].first_seen.touched_by(
            u,
        ) implies bits::holds(s.touched_by, u) by {
        assert(r.stores[k].first_seen.at(u) == r.stores[k].first_seen.at(u));
        if k == index {
            lemma_touch_recorded(r.stores[k].first_seen, t.me(), t.version(), s.touched_by, u);
        }
    }
    lemma_with_region_wf(s, ri, n);
}

proof fn lemma_unfloored(s: StateModel, ri: int, view: ViewModel, seed: Seq<u8>, n: int, m: int)
    requires
        0 <= n <= seed.len(),
        forall|k: int| 0 <= k < seed.len() ==> (#[trigger] seed[k]) < m,
    ensures
        s.unfloored(ri, view, seed, n).len() <= n,
        forall|k: int|
            0 <= k < s.unfloored(ri, view, seed, n).len() ==> (#[trigger] s.unfloored(
                ri,
                view,
                seed,
                n,
            )[k]) < m,
    decreases n,
{
    if n > 0 {
        lemma_unfloored(s, ri, view, seed, n - 1, m);
    }
}

pub proof fn lemma_candidates(
    s: StateModel,
    t: ThreadsModel,
    ri: int,
    view: ViewModel,
    order: Order,
    floor: bool,
)
    requires
        s.wf(),
        0 <= ri < s.regions.len(),
    ensures
        s.candidates(t, ri, view, order, floor).len() <= s.regions[ri].stores.len()
            <= MAX_ATOMIC_HISTORY,
        forall|k: int|
            0 <= k < s.candidates(t, ri, view, order, floor).len() ==> (#[trigger] s.candidates(
                t,
                ri,
                view,
                order,
                floor,
            )[k]) < s.regions[ri].stores.len(),
{
    let r = s.regions[ri];
    assert(r.wf());
    lemma_readable(r, t, view.causality, order, r.stores.len() as int);
    let base = r.readable(t, view.causality, order, r.stores.len() as int);
    lemma_unfloored(s, ri, view, base, base.len() as int, r.stores.len() as int);
}

proof fn lemma_consistent_upto(
    s: StateModel,
    t: ThreadsModel,
    covered: Seq<usize>,
    k: int,
    order: Order,
    floor: bool,
    resolved: Seq<(u64, bool)>,
    seed: Seq<u8>,
    n: int,
    m: int,
)
    requires
        0 <= n <= seed.len(),
        forall|i: int| 0 <= i < seed.len() ==> (#[trigger] seed[i]) < m,
    ensures
        s.consistent_upto(t, covered, k, order, floor, resolved, seed, n).len() <= n,
        forall|i: int|
            0 <= i < s.consistent_upto(t, covered, k, order, floor, resolved, seed, n).len() ==> (
            #[trigger] s.consistent_upto(t, covered, k, order, floor, resolved, seed, n)[i]) < m,
    decreases n,
{
    if n > 0 {
        lemma_consistent_upto(s, t, covered, k, order, floor, resolved, seed, n - 1, m);
    }
}

impl State {
    /// True when the active thread has observed operation `op_id` through some
    /// region other than `ri`.
    fn op_seen_through_other_region(&self, ri: usize, op_id: u64, view: &LoadView) -> (r: bool)
        requires
            self@.wf(),
        ensures
            r == self@.op_seen_elsewhere(ri as int, op_id, view@),
    {
        let mut rj: usize = 0;
        while rj < self.regions.len()
            invariant
                self@.wf(),
                rj <= self@.regions.len(),
                forall|k: int|
                    0 <= k < rj && k != ri ==> !#[trigger] self@.op_seen_in(k, op_id, view@),
            decreases self.regions.len() - rj,
        {
            assert(self.regions@[rj as int]@ == self@.regions[rj as int]);
            let ghost r = self@.regions[rj as int];
            assert(r.wf());
            if rj != ri {
                if let Some(pin) = self.regions[rj].pin_of_op(op_id) {
                    let mut g: usize = 0;
                    while g < self.regions[rj].stores.len()
                        invariant
                            self@.wf(),
                            rj < self@.regions.len(),
                            rj != ri,
                            r == self@.regions[rj as int],
                            r.wf(),
                            self.regions@[rj as int]@ == r,
                            r.pin(op_id) == Some(pin),
                            pin matches OpPin::Wrote(slot) ==> slot < r.stores.len(),
                            pin matches OpPin::Preserved(read) ==> read.creator < MAX_THREADS,
                            g <= r.stores.len(),
                            forall|k: int|
                                0 <= k < g ==> !(r.pin_seen(pin, k) && view@.saw(
                                    #[trigger] r.stores[k],
                                    rj,
                                    k as usize,
                                )),
                        decreases r.stores.len() - g,
                    {
                        let store: Store = self.regions[rj].stores[g];
                        assert(store == r.stores[g as int]);
                        if self.regions[rj].pin_sees(&pin, g) && view.is_seen(&store, rj, g) {
                            assert(self@.op_seen_in(rj as int, op_id, view@));
                            return true;
                        }
                        g += 1;
                    }
                }
                assert(!self@.op_seen_in(rj as int, op_id, view@));
            }
            rj += 1;
        }
        false
    }

    /// Whether reading slot `c` of region `ri` would travel behind a
    /// whole-cell operation already observed through another region.
    fn is_floored(&self, ri: usize, view: &LoadView, c: usize) -> (r: bool)
        requires
            self@.wf(),
            ri < self@.regions.len(),
            c < self@.regions[ri as int].stores.len(),
        ensures
            r == self@.floored(ri as int, view@, c as int),
    {
        let ghost region = self@.regions[ri as int];
        assert(self.regions@[ri as int]@ == region);
        assert(region.wf());
        let candidate: Store = self.regions[ri].stores[c];
        assert(candidate == region.stores[c as int]);
        let mut f: usize = 0;
        while f < self.regions[ri].stores.len()
            invariant
                self@.wf(),
                ri < self@.regions.len(),
                region == self@.regions[ri as int],
                self.regions@[ri as int]@ == region,
                candidate == region.stores[c as int],
                candidate.creator < MAX_THREADS,
                f <= region.stores.len(),
                forall|k: int|
                    0 <= k < f ==> !(ordered(candidate, #[trigger] region.stores[k])
                        && self@.op_seen_elsewhere(ri as int, region.stores[k].op_id, view@)),
            decreases region.stores.len() - f,
        {
            let store: Store = self.regions[ri].stores[f];
            assert(store == region.stores[f as int]);
            if mo_before(&candidate, &store) && self.op_seen_through_other_region(
                ri,
                store.op_id,
                view,
            ) {
                return true;
            }
            f += 1;
        }
        let mut p: usize = 0;
        while p < self.regions[ri].preserved.len()
            invariant
                self@.wf(),
                ri < self@.regions.len(),
                region == self@.regions[ri as int],
                region.wf(),
                self.regions@[ri as int]@ == region,
                candidate == region.stores[c as int],
                candidate.creator < MAX_THREADS,
                p <= region.preserved.len(),
                forall|k: int|
                    0 <= k < p ==> !((region.store_slot(
                        (#[trigger] region.preserved[k]).read.read_id,
                        0,
                    ) matches Some(s) && ordered(candidate, region.stores[s]))
                        && self@.op_seen_elsewhere(ri as int, region.preserved[k].op_id, view@)),
            decreases region.preserved.len() - p,
        {
            let record: PreservedOp = self.regions[ri].preserved[p];
            assert(record == region.preserved[p as int]);
            // A floor the ring no longer holds cannot be compared against; it
            // lapses with the store.
            if let Some(s) = self.regions[ri].slot_of_store(record.read.read_id) {
                let store: Store = self.regions[ri].stores[s];
                assert(store == region.stores[s as int]);
                if mo_before(&candidate, &store) && self.op_seen_through_other_region(
                    ri,
                    record.op_id,
                    view,
                ) {
                    return true;
                }
            }
            p += 1;
        }
        false
    }

    /// Whole-cell coherence for a typed lane load: drop every candidate that
    /// is modification-order-before a store of the region whose whole-cell
    /// operation the active thread has already observed through *another*
    /// region of this cell. A racing store stays readable.
    fn filter_seen_op_floors(&self, ri: usize, view: &LoadView, seed: &Vec<u8>) -> (r: Vec<u8>)
        requires
            self@.wf(),
            ri < self@.regions.len(),
            forall|k: int|
                0 <= k < seed@.len() ==> (#[trigger] seed@[k])
                    < self@.regions[ri as int].stores.len(),
        ensures
            r@ == self@.unfloored(ri as int, view@, seed@, seed@.len() as int),
    {
        let mut out: Vec<u8> = Vec::new();
        let mut k: usize = 0;
        while k < seed.len()
            invariant
                self@.wf(),
                ri < self@.regions.len(),
                forall|k: int|
                    0 <= k < seed@.len() ==> (#[trigger] seed@[k])
                        < self@.regions[ri as int].stores.len(),
                k <= seed@.len(),
                out@ == self@.unfloored(ri as int, view@, seed@, k as int),
            decreases seed.len() - k,
        {
            assert(seed@[k as int] < self@.regions[ri as int].stores.len());
            if !self.is_floored(ri, view, seed[k] as usize) {
                out.push(seed[k]);
            }
            k += 1;
        }
        out
    }

    /// The stores of region `ri` that a load may return.
    fn list_candidates(
        &self,
        threads: &Threads,
        ri: usize,
        view: &LoadView,
        order: Order,
        floor: bool,
    ) -> (r: Vec<u8>)
        requires
            self@.wf(),
            threads@.running(),
            ri < self@.regions.len(),
        ensures
            r@ == self@.candidates(threads@, ri as int, view@, order, floor),
    {
        assert(self.regions@[ri as int]@ == self@.regions[ri as int]);
        let ghost region = self@.regions[ri as int];
        assert(region.wf());
        let seed: Vec<u8> = self.regions[ri].match_load_to_stores(threads, &view.causality, order);
        proof {
            lemma_readable(region, threads@, view@.causality, order, region.stores.len() as int);
        }
        if floor && self.regions.len() > 1 {
            self.filter_seen_op_floors(ri, view, &seed)
        } else {
            seed
        }
    }

    /// Can the regions `covered[k..]` of a multi-region load be assigned
    /// stores consistent with `resolved`? Depth-first over the regions in
    /// order, so a prefix is rejected only when *no* completion exists.
    fn has_consistent_completion(
        &self,
        threads: &Threads,
        covered: &Indices,
        k: usize,
        order: Order,
        floor: bool,
        resolved: &mut Resolved,
        view: &LoadView,
    ) -> (r: bool)
        requires
            self@.wf(),
            threads@.running(),
            forall|i: int| 0 <= i < covered@.len() ==> (#[trigger] covered@[i]) < self@.regions.len(),
        ensures
            r == self@.completes(
                threads@,
                covered@,
                k as int,
                order,
                floor,
                old(resolved)@,
                view@,
            ),
            final(resolved)@ == old(resolved)@,
        decreases covered@.len() - k,
    {
        let n: usize = indices_len(covered);
        if k >= n {
            return true;
        }
        let rj: usize = indices_get(covered, k);
        let seed: Vec<u8> = self.list_candidates(threads, rj, view, order, floor);
        proof {
            lemma_candidates(self@, threads@, rj as int, view@, order, floor);
        }
        assert(self.regions@[rj as int]@ == self@.regions[rj as int]);
        let mut i: usize = 0;
        while i < seed.len()
            invariant
                self@.wf(),
                threads@.running(),
                forall|i: int|
                    0 <= i < covered@.len() ==> (#[trigger] covered@[i]) < self@.regions.len(),
                n == covered@.len(),
                k < n,
                rj == covered@[k as int],
                rj < self@.regions.len(),
                self.regions@[rj as int]@ == self@.regions[rj as int],
                seed@ == self@.candidates(threads@, rj as int, view@, order, floor),
                forall|j: int|
                    0 <= j < seed@.len() ==> (#[trigger] seed@[j])
                        < self@.regions[rj as int].stores.len(),
                i <= seed@.len(),
                resolved@ == old(resolved)@,
                self@.completes(
                    threads@,
                    covered@,
                    k as int,
                    order,
                    floor,
                    old(resolved)@,
                    view@,
                ) == self@.some_completes(
                    threads@,
                    covered@,
                    k as int,
                    order,
                    floor,
                    old(resolved)@,
                    view@,
                    seed@,
                    i as int,
                ),
            decreases seed.len() - i,
        {
            let ci: usize = seed[i] as usize;
            assert(seed@[i as int] < self@.regions[rj as int].stores.len());
            let mark: usize = resolved_len(resolved);
            if self.regions[rj].try_resolve(ci, resolved) {
                let next_view = view.extend(&self.regions[rj], rj, ci, order);
                let complete: bool = self.has_consistent_completion(
                    threads,
                    covered,
                    k + 1,
                    order,
                    floor,
                    resolved,
                    &next_view,
                );
                resolved_truncate(resolved, mark);
                if complete {
                    return true;
                }
            }
            i += 1;
        }
        false
    }
}

impl State {
    /// The stores that region `covered[k]` offers to a load.
    fn offer(
        &self,
        threads: &Threads,
        covered: &Indices,
        k: usize,
        order: Order,
        floor: bool,
        resolved: &mut Resolved,
    ) -> (r: Result<Vec<u8>, Fault>)
        requires
            self@.wf(),
            threads@.running(),
            k < covered@.len(),
            forall|i: int| 0 <= i < covered@.len() ==> (#[trigger] covered@[i]) < self@.regions.len(),
        ensures
            final(resolved)@ == old(resolved)@,
            match self@.offered(threads@, covered@, k as int, order, floor, old(resolved)@) {
                Ok(seed) => {
                    &&& r matches Ok(v) && v@ == seed
                    &&& seed.len() <= MAX_ATOMIC_HISTORY
                    &&& forall|i: int| 0 <= i < seed.len() ==> (#[trigger] seed[i]) < MAX_ATOMIC_HISTORY
                },
                Err(f) => r matches Err(g) && f == g,
            },
    {
        let ri: usize = indices_get(covered, k);
        // The regions before this one have already been read, so the live
        // state *is* the projection for this step.
        let view = LoadView::entry(threads);
        let seed: Vec<u8> = self.list_candidates(threads, ri, &view, order, floor);
        proof {
            lemma_candidates(self@, threads@, ri as int, view@, order, floor);
        }
        if floor && self.regions.len() > 1 && seed.len() == 0 {
            return Err(Fault::NoReadableStore);
        }
        let n: usize = indices_len(covered);
        if n <= 1 {
            return Ok(seed);
        }
        assert(self.regions@[ri as int]@ == self@.regions[ri as int]);
        let mut kept: Vec<u8> = Vec::new();
        let mut i: usize = 0;
        while i < seed.len()
            invariant
                self@.wf(),
                threads@.running(),
                forall|i: int|
                    0 <= i < covered@.len() ==> (#[trigger] covered@[i]) < self@.regions.len(),
                n == covered@.len(),
                k < n,
                ri == covered@[k as int],
                ri < self@.regions.len(),
                self.regions@[ri as int]@ == self@.regions[ri as int],
                view@ == ViewModel::at_entry(threads@),
                forall|j: int|
                    0 <= j < seed@.len() ==> (#[trigger] seed@[j])
                        < self@.regions[ri as int].stores.len(),
                i <= seed@.len(),
                resolved@ == old(resolved)@,
                kept@ == self@.consistent_upto(
                    threads@,
                    covered@,
                    k as int,
                    order,
                    floor,
                    old(resolved)@,
                    seed@,
                    i as int,
                ),
            decreases seed.len() - i,
        {
            let ci: usize = seed[i] as usize;
            assert(seed@[i as int] < self@.regions[ri as int].stores.len());
            // The prefix is a stack: extend it for this candidate, test, wind
            // back.
            let mark: usize = resolved_len(resolved);
            if self.regions[ri].try_resolve(ci, resolved) {
                let next_view = view.extend(&self.regions[ri], ri, ci, order);
                let complete: bool = self.has_consistent_completion(
                    threads,
                    covered,
                    k + 1,
                    order,
                    floor,
                    resolved,
                    &next_view,
                );
                resolved_truncate(resolved, mark);
                if complete {
                    kept.push(seed[i]);
                }
            }
            i += 1;
        }
        proof {
            lemma_consistent_upto(
                self@,
                threads@,
                covered@,
                k as int,
                order,
                floor,
                old(resolved)@,
                seed@,
                seed@.len() as int,
                MAX_ATOMIC_HISTORY as int,
            );
        }
        if kept.len() == 0 {
            return Err(Fault::TornLoad);
        }
        Ok(kept)
    }

    /// Compose the value an atomic load returns across the regions `covered`,
    /// taking one *value* branch each. With `floor`, each region's readable
    /// set is additionally narrowed to the whole-cell-coherent projection that
    /// the typed lane views promise.
    pub fn compose_load(
        &mut self,
        path: &mut Path,
        claims: &Claims,
        threads: &mut Threads,
        covered: &Indices,
        order: Order,
        floor: bool,
    ) -> (r: Result<u128, Fault>)
        requires
            old(self)@.wf(),
            old(path)@.inv(claims@),
            old(threads)@.running(),
            bits::holds(old(self)@.touched_by, old(threads)@.me()),
            forall|i: int|
                0 <= i < covered@.len() ==> (#[trigger] covered@[i]) < old(self)@.regions.len(),
        ensures
            match old(self)@.composed(
                old(path)@,
                old(threads)@,
                covered@,
                0,
                order,
                floor,
                Seq::empty(),
                0,
            ) {
                Ok(c) => {
                    &&& r == Ok::<u128, Fault>(c.value)
                    &&& final(self)@ == c.cell
                    &&& final(path)@ == c.path
                    &&& final(threads)@ == c.threads
                    &&& c.cell.wf()
                    &&& c.path.inv(claims@)
                    &&& c.threads.running()
                },
                Err(f) => r == Err::<u128, Fault>(f),
            },
    {
        let n: usize = indices_len(covered);
        let mut resolved: Resolved = resolved_new();
        let mut result: u128 = 0;
        let ghost target = self@.composed(
            path@,
            threads@,
            covered@,
            0,
            order,
            floor,
            Seq::empty(),
            0,
        );
        let mut k: usize = 0;
        while k < n
            invariant
                n == covered@.len(),
                k <= n,
                self@.wf(),
                path@.inv(claims@),
                threads@.running(),
                bits::holds(self@.touched_by, threads@.me()),
                forall|i: int|
                    0 <= i < covered@.len() ==> (#[trigger] covered@[i]) < self@.regions.len(),
                self@.composed(
                    path@,
                    threads@,
                    covered@,
                    k as int,
                    order,
                    floor,
                    resolved@,
                    result,
                ) == target,
                target == old(self)@.composed(
                    old(path)@,
                    old(threads)@,
                    covered@,
                    0,
                    order,
                    floor,
                    Seq::empty(),
                    0,
                ),
            decreases n - k,
        {
            let ri: usize = indices_get(covered, k);
            if path.is_traversed() {
                match self.offer(threads, covered, k, order, floor, &mut resolved) {
                    Ok(seed) => {
                        match path.push_load(claims, &seed) {
                            Ok(()) => {},
                            Err(f) => {
                                return Err(f);
                            },
                        }
                    },
                    Err(f) => {
                        return Err(f);
                    },
                }
            }
            let index: usize = match path.branch_load(claims) {
                Ok(index) => index,
                Err(f) => {
                    return Err(f);
                },
            };
            assert(self.regions@[ri as int]@ == self@.regions[ri as int]);
            if index >= self.regions[ri].stores.len() {
                return Err(Fault::Nondeterministic);
            }
            if n > 1 && !self.regions[ri].try_resolve(index, &mut resolved) {
                return Err(Fault::TornLoad);
            }
            proof {
                lemma_region_read(self@, threads@, ri as int, index as int);
            }
            let ghost before = self@;
            let mask: u128 = self.regions[ri].mask;
            let v: u128 = self.regions[ri].load(threads, index, order);
            result = result | (v & mask);
            proof {
                assert(self@.regions =~= before.regions.update(
                    ri as int,
                    self.regions@[ri as int]@,
                ));
            }
            k += 1;
        }
        Ok(result)
    }
}

} // verus!
