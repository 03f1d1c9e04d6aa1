//! What a load of several regions returns: one snapshot of the cell.
use vstd::prelude::*;

use crate::rt::atomic::laws::lemma_resolved;
use crate::rt::atomic::load::ViewModel;
use crate::rt::atomic::region::{fixed_for, lemma_coherence_join, lemma_read_wf, OpPin, RegionModel};
use crate::rt::atomic::state::{lemma_covered, StateModel};
use crate::rt::atomic::store::{closed_under_rmw, lemma_closed, ordered, FirstSeen};
use crate::rt::branch::Entry;
use crate::rt::claims::Frozen;
use crate::rt::fault::Fault;
use crate::rt::order::Order;
use crate::rt::path::{entry_wf, lemma_pushed_inv, load_values, PathModel};
use crate::rt::thread::ThreadsModel;
use crate::rt::vv::{VersionVec, LANES};
use crate::rt::{MAX_ATOMIC_HISTORY, MAX_THREADS};

verus! {

/// A load after its first regions: the cell, the path, the threads and the
/// visibility fixed so far.
pub struct Reading {
    pub cell: StateModel,
    pub path: PathModel,
    pub threads: ThreadsModel,
    pub resolved: Seq<(u64, bool)>,
}

impl Reading {
    /// The path with the branch for region `covered[k]`.
    pub open spec fn branched(self, covered: Seq<usize>, k: int, order: Order, floor: bool) -> Result<
        PathModel,
        Fault,
    > {
        if self.path.traversed() {
            match self.cell.offered(self.threads, covered, k, order, floor, self.resolved) {
                Ok(seed) => self.path.with_load(seed),
                Err(f) => Err(f),
            }
        } else {
            Ok(self.path)
        }
    }

    /// The slot of region `covered[k]` that the load reads, and the load after
    /// it.
    pub open spec fn next(self, covered: Seq<usize>, k: int, order: Order, floor: bool) -> Option<
        (int, Reading),
    > {
        match self.branched(covered, k, order, floor) {
            Err(_) => None,
            Ok(p) => match p.load_branch() {
                Err(_) => None,
                Ok((path, index)) => {
                    let ri = covered[k] as int;
                    let r = self.cell.regions[ri];
                    let fixed = if covered.len() > 1 {
                        r.resolve(index, self.resolved)
                    } else {
                        Some(self.resolved)
                    };
                    if index >= r.stores.len() || fixed is None {
                        None
                    } else {
                        Some(
                            (
                                index,
                                Reading {
                                    cell: self.cell.with_region(ri, r.read(self.threads, index)),
                                    path,
                                    threads: self.threads.synced(
                                        r.stores[index].sync.happens_before,
                                        order,
                                    ),
                                    resolved: fixed->Some_0,
                                },
                            ),
                        )
                    }
                },
            },
        }
    }

    /// The slots of the regions `covered[k..]` that the load reads.
    pub open spec fn slots(self, covered: Seq<usize>, k: int, order: Order, floor: bool) -> Seq<int>
        decreases covered.len() - k,
    {
        if k >= covered.len() {
            Seq::empty()
        } else {
            match self.next(covered, k, order, floor) {
                None => Seq::empty(),
                Some((index, rest)) => seq![index] + rest.slots(covered, k + 1, order, floor),
            }
        }
    }

    /// A branch that the load replays is the one that it would open.
    pub open spec fn replays(self, covered: Seq<usize>, k: int, order: Order, floor: bool) -> bool
        decreases covered.len() - k,
    {
        k >= covered.len() || {
            &&& !self.path.traversed() ==> {
                &&& self.cell.offered(
                    self.threads,
                    covered,
                    k,
                    order,
                    floor,
                    self.resolved,
                ) matches Ok(seed)
                &&& self.path.branches[self.path.pos] matches Entry::Load(l)
                &&& l.values == load_values(seed)
                &&& l.len == seed.len()
            }
            &&& self.next(covered, k, order, floor) matches Some((index, rest)) ==> rest.replays(
                covered,
                k + 1,
                order,
                floor,
            )
        }
    }
}

/// The bits that the load takes from the regions `covered[k..]`.
pub open spec fn bits_of(cell: StateModel, covered: Seq<usize>, slots: Seq<int>, n: int) -> u128
    decreases n,
{
    if n <= 0 {
        0
    } else {
        let r = cell.regions[covered[n - 1] as int];
        bits_of(cell, covered, slots, n - 1) | (r.stores[slots[n - 1]].value & r.mask)
    }
}

/// The regions of a load, in order and each once.
pub open spec fn in_order(cell: StateModel, covered: Seq<usize>) -> bool {
    &&& forall|i: int| 0 <= i < covered.len() ==> (#[trigger] covered[i]) < cell.regions.len()
    &&& forall|i: int, j: int|
        #![trigger covered[i], covered[j]]
        0 <= i < j < covered.len() ==> covered[i] < covered[j]
}

/// The regions that a load of `mask` covers are in order.
pub proof fn covered_regions_are_in_order(cell: StateModel, mask: u128)
    requires
        cell.regions.len() <= usize::MAX,
    ensures
        in_order(cell, cell.covered(mask)),
{
    lemma_covered(cell, mask, cell.regions.len() as int);
}

proof fn lemma_slots(r: Reading, covered: Seq<usize>, k: int, order: Order, floor: bool, value: u128)
    requires
        0 <= k <= covered.len(),
        r.cell.composed(
            r.path,
            r.threads,
            covered,
            k,
            order,
            floor,
            r.resolved,
            value,
        ) is Ok,
    ensures
        r.slots(covered, k, order, floor).len() == covered.len() - k,
    decreases covered.len() - k,
{
    if k < covered.len() {
        let (index, rest) = r.next(covered, k, order, floor)->Some_0;
        let region = r.cell.regions[covered[k] as int];
        lemma_slots(
            rest,
            covered,
            k + 1,
            order,
            floor,
            value | (region.stores[index].value & region.mask),
        );
    }
}

// ----- all or none -----
/// What was fixed before agrees with what the later regions see.
proof fn lemma_later_agrees(
    r: Reading,
    covered: Seq<usize>,
    k: int,
    order: Order,
    floor: bool,
    b: int,
    d: int,
    seen: bool,
)
    requires
        covered.len() > 1,
        in_order(r.cell, covered),
        0 <= k <= b < covered.len(),
        r.slots(covered, k, order, floor).len() == covered.len() - k,
        0 <= d < r.cell.regions[covered[b] as int].stores.len(),
        fixed_for(r.resolved, r.cell.regions[covered[b] as int].stores[d].op_id, 0) == Some(seen),
    ensures
        r.cell.regions[covered[b] as int].sees(r.slots(covered, k, order, floor)[b - k], d) == seen,
    decreases b - k,
{
    let (index, rest) = r.next(covered, k, order, floor)->Some_0;
    let region = r.cell.regions[covered[k] as int];
    let op_id = r.cell.regions[covered[b] as int].stores[d].op_id;
    let n = region.stores.len() as int;
    assert(r.slots(covered, k, order, floor) == seq![index] + rest.slots(
        covered,
        k + 1,
        order,
        floor,
    ));
    lemma_resolved(region, index, r.resolved, n, if k == b { d } else { -1 }, op_id);
    if k < b {
        assert(covered[k] < covered[b]);
        assert(rest.cell.regions[covered[b] as int] == r.cell.regions[covered[b] as int]);
        lemma_later_agrees(rest, covered, k + 1, order, floor, b, d, seen);
    }
}

proof fn lemma_all_or_none(
    r: Reading,
    covered: Seq<usize>,
    k: int,
    order: Order,
    floor: bool,
    a: int,
    b: int,
    da: int,
    db: int,
)
    requires
        in_order(r.cell, covered),
        0 <= k <= a < b < covered.len(),
        r.slots(covered, k, order, floor).len() == covered.len() - k,
        0 <= da < r.cell.regions[covered[a] as int].stores.len(),
        0 <= db < r.cell.regions[covered[b] as int].stores.len(),
        r.cell.regions[covered[a] as int].stores[da].op_id
            == r.cell.regions[covered[b] as int].stores[db].op_id,
    ensures
        ({
            let slots = r.slots(covered, k, order, floor);
            r.cell.regions[covered[a] as int].sees(slots[a - k], da)
                == r.cell.regions[covered[b] as int].sees(slots[b - k], db)
        }),
    decreases a - k,
{
    let (index, rest) = r.next(covered, k, order, floor)->Some_0;
    let region = r.cell.regions[covered[k] as int];
    assert(r.slots(covered, k, order, floor) == seq![index] + rest.slots(
        covered,
        k + 1,
        order,
        floor,
    ));
    assert(covered[k] < covered[b]);
    assert(rest.cell.regions[covered[b] as int] == r.cell.regions[covered[b] as int]);
    if k == a {
        lemma_resolved(region, index, r.resolved, region.stores.len() as int, da, 0);
        lemma_later_agrees(
            rest,
            covered,
            k + 1,
            order,
            floor,
            b,
            db,
            region.sees(index, da),
        );
    } else {
        assert(covered[k] < covered[a]);
        assert(rest.cell.regions[covered[a] as int] == r.cell.regions[covered[a] as int]);
        lemma_all_or_none(rest, covered, k + 1, order, floor, a, b, da, db);
    }
}

proof fn lemma_value(
    r: Reading,
    cell: StateModel,
    covered: Seq<usize>,
    k: int,
    order: Order,
    floor: bool,
    slots: Seq<int>,
)
    requires
        in_order(r.cell, covered),
        0 <= k <= covered.len(),
        slots.len() == covered.len(),
        r.cell.regions.len() == cell.regions.len(),
        forall|i: int|
            k <= i < covered.len() ==> r.cell.regions[(#[trigger] covered[i]) as int]
                == cell.regions[covered[i] as int],
        slots.skip(k) == r.slots(covered, k, order, floor),
        r.cell.composed(
            r.path,
            r.threads,
            covered,
            k,
            order,
            floor,
            r.resolved,
            bits_of(cell, covered, slots, k),
        ) is Ok,
    ensures
        r.cell.composed(
            r.path,
            r.threads,
            covered,
            k,
            order,
            floor,
            r.resolved,
            bits_of(cell, covered, slots, k),
        )->Ok_0.value == bits_of(cell, covered, slots, covered.len() as int),
    decreases covered.len() - k,
{
    if k < covered.len() {
        let (index, rest) = r.next(covered, k, order, floor)->Some_0;
        assert(slots.skip(k)[0] == slots[k]);
        assert(slots[k] == index);
        assert(slots.skip(k + 1) =~= slots.skip(k).skip(1));
        assert(r.slots(covered, k, order, floor).skip(1) =~= rest.slots(
            covered,
            k + 1,
            order,
            floor,
        ));
        assert forall|i: int| k + 1 <= i < covered.len() implies rest.cell.regions[(
        #[trigger] covered[i]) as int] == cell.regions[covered[i] as int] by {
            assert(covered[k] < covered[i]);
        }
        lemma_value(rest, cell, covered, k + 1, order, floor, slots);
    }
}

/// Single-copy atomicity: a load returns one snapshot of the cell. Its value is
/// made of one store of each region that it covers, and an operation that wrote
/// any two of them is seen through both or through neither.
pub proof fn a_load_is_one_snapshot(
    cell: StateModel,
    path: PathModel,
    t: ThreadsModel,
    covered: Seq<usize>,
    order: Order,
    floor: bool,
    a: int,
    b: int,
    da: int,
    db: int,
)
    requires
        in_order(cell, covered),
        cell.composed(path, t, covered, 0, order, floor, Seq::empty(), 0) is Ok,
    ensures
        ({
            let slots = Reading { cell, path, threads: t, resolved: Seq::empty() }.slots(
                covered,
                0,
                order,
                floor,
            );
            let c = cell.composed(path, t, covered, 0, order, floor, Seq::empty(), 0)->Ok_0;
            &&& slots.len() == covered.len()
            &&& c.value == bits_of(cell, covered, slots, covered.len() as int)
            &&& {
                let ra = cell.regions[covered[a] as int];
                let rb = cell.regions[covered[b] as int];
                0 <= a < b < covered.len() && 0 <= da < ra.stores.len() && 0 <= db
                    < rb.stores.len() && ra.stores[da].op_id == rb.stores[db].op_id ==> ra.sees(
                    slots[a],
                    da,
                ) == rb.sees(slots[b], db)
            }
        }),
{
    let r = Reading { cell, path, threads: t, resolved: Seq::empty() };
    let slots = r.slots(covered, 0, order, floor);
    lemma_slots(r, covered, 0, order, floor, 0);
    assert(slots.skip(0) =~= slots);
    lemma_value(r, cell, covered, 0, order, floor, slots);
    let ra = cell.regions[covered[a] as int];
    let rb = cell.regions[covered[b] as int];
    if 0 <= a < b < covered.len() && 0 <= da < ra.stores.len() && 0 <= db < rb.stores.len()
        && ra.stores[da].op_id == rb.stores[db].op_id {
        lemma_all_or_none(r, covered, 0, order, floor, a, b, da, db);
    }
}

// ----- lanes -----
proof fn lemma_unfloored(s: StateModel, ri: int, view: ViewModel, seed: Seq<u8>, n: int, k: int)
    requires
        0 <= n <= seed.len(),
        0 <= k < s.unfloored(ri, view, seed, n).len(),
    ensures
        !s.floored(ri, view, s.unfloored(ri, view, seed, n)[k] as int),
        seed.contains(s.unfloored(ri, view, seed, n)[k]),
    decreases n,
{
    if n > 0 {
        let before = s.unfloored(ri, view, seed, n - 1);
        assert(seed.contains(seed[n - 1]));
        if k < before.len() {
            lemma_unfloored(s, ri, view, seed, n - 1, k);
        }
    }
}

proof fn lemma_kept(
    s: StateModel,
    t: ThreadsModel,
    covered: Seq<usize>,
    i: int,
    order: Order,
    resolved: Seq<(u64, bool)>,
    seed: Seq<u8>,
    n: int,
    k: int,
)
    requires
        0 <= n <= seed.len(),
        0 <= k < s.consistent_upto(t, covered, i, order, true, resolved, seed, n).len(),
    ensures
        seed.contains(s.consistent_upto(t, covered, i, order, true, resolved, seed, n)[k]),
        s.consistent_upto(t, covered, i, order, true, resolved, seed, n).len() <= n,
    decreases n,
{
    if n > 0 {
        let before = s.consistent_upto(t, covered, i, order, true, resolved, seed, n - 1);
        if k < before.len() {
            lemma_kept(s, t, covered, i, order, resolved, seed, n - 1, k);
        } else {
            assert(seed[n - 1] == seed[n - 1]);
            if before.len() > 0 {
                lemma_kept(s, t, covered, i, order, resolved, seed, n - 1, 0);
            }
        }
    }
}

proof fn lemma_offered(
    s: StateModel,
    t: ThreadsModel,
    covered: Seq<usize>,
    i: int,
    order: Order,
    resolved: Seq<(u64, bool)>,
    k: int,
)
    requires
        s.regions.len() > 1,
        s.offered(t, covered, i, order, true, resolved) matches Ok(seed) && 0 <= k < seed.len(),
    ensures
        !s.floored(
            covered[i] as int,
            ViewModel::at_entry(t),
            s.offered(t, covered, i, order, true, resolved)->Ok_0[k] as int,
        ),
{
    let ri = covered[i] as int;
    let view = ViewModel::at_entry(t);
    let r = s.regions[ri];
    let base = r.readable(t, view.causality, order, r.stores.len() as int);
    let seed = s.candidates(t, ri, view, order, true);
    let kept = s.offered(t, covered, i, order, true, resolved)->Ok_0;
    let j = if covered.len() > 1 {
        lemma_kept(s, t, covered, i, order, resolved, seed, seed.len() as int, k);
        choose|j: int| 0 <= j < seed.len() && seed[j] == kept[k]
    } else {
        k
    };
    lemma_unfloored(s, ri, view, base, base.len() as int, j);
}

/// What a thread has seen of a region it has still seen after one more read.
proof fn lemma_still_seen(
    s: StateModel,
    t: ThreadsModel,
    ri: int,
    index: int,
    order: Order,
    rj: int,
    op_id: u64,
)
    requires
        t.running(),
        0 <= ri < s.regions.len(),
        0 <= rj < s.regions.len(),
        0 <= index < s.regions[ri].stores.len(),
        s.regions[ri].wf(),
        s.op_seen_in(rj, op_id, ViewModel::at_entry(t)),
    ensures
        s.with_region(ri, s.regions[ri].read(t, index)).op_seen_in(
            rj,
            op_id,
            ViewModel::at_entry(
                t.synced(s.regions[ri].stores[index].sync.happens_before, order),
            ),
        ),
{
    broadcast use VersionVec::lemma_joined_at;
    broadcast use FirstSeen::lemma_touched_at;

    let r = s.regions[ri];
    let n = s.with_region(ri, r.read(t, index));
    let t1 = t.synced(r.stores[index].sync.happens_before, order);
    let before = s.regions[rj];
    let after = n.regions[rj];
    let pin = before.pin(op_id)->Some_0;
    let view = t.current().causality;
    let later = t1.current().causality;
    let g = choose|g: int|
        0 <= g < before.stores.len() && before.pin_seen(pin, g) && ViewModel::at_entry(t).saw(
            #[trigger] before.stores[g],
            rj as usize,
            g as usize,
        );
    assert(before.stores[g].first_seen.seen_in(view));
    let i = choose|i: int|
        0 <= i < LANES && #[trigger] before.stores[g].first_seen.at(i) != u16::MAX
            && before.stores[g].first_seen.at(i) <= view.at(i);
    assert(view.at(i) <= later.at(i));
    if rj == ri {
        let joined = r.coherence_join(view, index, r.stores.len() as int);
        lemma_coherence_join(r, view, index, r.stores.len() as int);
        lemma_closed(r.stores, joined, r.stores[index].id);
        VersionVec::below_is_partial_order(
            r.stores[index].modification_order,
            joined,
            closed_under_rmw(r.stores, joined, r.stores[index].id),
        );
        lemma_same_pins(before, after, op_id, 0);
        lemma_pin_in_range(before, op_id);
        assert(after.stores[g].first_seen.at(i) == before.stores[g].first_seen.at(i));
        assert(before.stores[g].modification_order.below(after.stores[g].modification_order)) by {
            VersionVec::below_is_partial_order(
                before.stores[g].modification_order,
                before.stores[g].modification_order,
                before.stores[g].modification_order,
            );
        }
    }
    assert(after.stores[g].first_seen.seen_in(later));
    assert(after.pin_seen(pin, g));
    assert(ViewModel::at_entry(t1).saw(after.stores[g], rj as usize, g as usize));
}

proof fn lemma_op_slot(r: RegionModel, op_id: u64, i: int)
    requires
        0 <= i,
    ensures
        r.op_slot(op_id, i) matches Some(k) ==> i <= k < r.stores.len(),
    decreases r.stores.len() - i,
{
    if i < r.stores.len() {
        lemma_op_slot(r, op_id, i + 1);
    }
}

proof fn lemma_op_record(r: RegionModel, op_id: u64, i: int)
    requires
        0 <= i,
    ensures
        r.op_record(op_id, i) matches Some(k) ==> i <= k < r.preserved.len(),
    decreases r.preserved.len() - i,
{
    if i < r.preserved.len() {
        lemma_op_record(r, op_id, i + 1);
    }
}

/// A pin names a slot of the region, or a thread that there is.
proof fn lemma_pin_in_range(r: RegionModel, op_id: u64)
    requires
        r.wf(),
    ensures
        match r.pin(op_id) {
            Some(OpPin::Wrote(slot)) => slot < r.stores.len() && r.stores[slot as int].creator
                < MAX_THREADS,
            Some(OpPin::Preserved(read)) => read.creator < MAX_THREADS,
            None => true,
        },
{
    lemma_op_slot(r, op_id, 0);
    lemma_op_record(r, op_id, 0);
    if let Some(slot) = r.op_slot(op_id, 0) {
        assert(r.stores[slot].wf());
    } else if let Some(i) = r.op_record(op_id, 0) {
        assert(r.preserved[i].read.creator < MAX_THREADS);
    }
}

/// Regions that hold the same operations pin them alike.
proof fn lemma_same_pins(a: RegionModel, b: RegionModel, op_id: u64, i: int)
    requires
        0 <= i <= a.stores.len(),
        a.stores.len() == b.stores.len(),
        a.preserved == b.preserved,
        forall|k: int| 0 <= k < a.stores.len() ==> (#[trigger] b.stores[k]).op_id == a.stores[k].op_id,
    ensures
        b.op_slot(op_id, i) == a.op_slot(op_id, i),
        i == 0 ==> b.pin(op_id) == a.pin(op_id),
    decreases a.stores.len() - i,
{
    if i < a.stores.len() {
        assert(b.stores[i].op_id == a.stores[i].op_id);
        lemma_same_pins(a, b, op_id, i + 1);
    }
    if i == 0 {
        lemma_same_records(a, b, op_id, 0);
    }
}

proof fn lemma_same_records(a: RegionModel, b: RegionModel, op_id: u64, i: int)
    requires
        0 <= i,
        a.preserved == b.preserved,
    ensures
        b.op_record(op_id, i) == a.op_record(op_id, i),
    decreases a.preserved.len() - i,
{
    if i < a.preserved.len() {
        lemma_same_records(a, b, op_id, i + 1);
    }
}

proof fn lemma_lane(
    r: Reading,
    c: Seq<Frozen>,
    covered: Seq<usize>,
    k: int,
    order: Order,
    a: int,
    rj: int,
    op_id: u64,
    f: int,
)
    requires
        in_order(r.cell, covered),
        r.threads.running(),
        r.path.inv(c),
        forall|i: int| 0 <= i < r.cell.regions.len() ==> (#[trigger] r.cell.regions[i]).wf(),
        0 <= k <= a < covered.len(),
        0 <= rj < r.cell.regions.len(),
        rj != covered[a],
        r.cell.op_seen_in(rj, op_id, ViewModel::at_entry(r.threads)),
        0 <= f < r.cell.regions[covered[a] as int].stores.len(),
        r.cell.regions[covered[a] as int].stores[f].op_id == op_id,
        r.slots(covered, k, order, true).len() == covered.len() - k,
        r.replays(covered, k, order, true),
    ensures
        ({
            let region = r.cell.regions[covered[a] as int];
            !ordered(region.stores[r.slots(covered, k, order, true)[a - k]], region.stores[f])
        }),
    decreases a - k,
{
    let (index, rest) = r.next(covered, k, order, true)->Some_0;
    let region = r.cell.regions[covered[k] as int];
    assert(r.slots(covered, k, order, true) == seq![index] + rest.slots(covered, k + 1, order, true));
    assert(r.cell.regions.len() > 1) by {
        assert(covered[a] < r.cell.regions.len());
    }
    if k == a {
        let seed = r.cell.offered(r.threads, covered, k, order, true, r.resolved)->Ok_0;
        lemma_index(r, c, covered, k, order);
        let i = choose|i: int| 0 <= i < seed.len() && seed[i] as int == index;
        lemma_offered(r.cell, r.threads, covered, k, order, r.resolved, i);
        assert(r.cell.op_seen_elsewhere(covered[a] as int, op_id, ViewModel::at_entry(r.threads)));
        assert(region.stores[f] == region.stores[f]);
    } else {
        assert(covered[k] < covered[a]);
        lemma_index(r, c, covered, k, order);
        lemma_still_seen(r.cell, r.threads, covered[k] as int, index, order, rj, op_id);
        lemma_read_wf(region, r.threads, index);
        assert(rest.cell.regions[covered[a] as int] == r.cell.regions[covered[a] as int]);
        lemma_lane(rest, c, covered, k + 1, order, a, rj, op_id, f);
    }
}

/// The slot that is read is one that was offered.
proof fn lemma_index(r: Reading, c: Seq<Frozen>, covered: Seq<usize>, k: int, order: Order)
    requires
        r.path.inv(c),
        0 <= k < covered.len(),
        r.cell.regions.len() > 1,
        r.cell.regions[covered[k] as int].wf(),
        r.next(covered, k, order, true) is Some,
        r.replays(covered, k, order, true),
    ensures
        ({
            let (index, rest) = r.next(covered, k, order, true)->Some_0;
            &&& rest.path.inv(c)
            &&& 0 <= index
            &&& exists|i: int|
                0 <= i < r.cell.offered(r.threads, covered, k, order, true, r.resolved)->Ok_0.len()
                    && #[trigger] r.cell.offered(
                    r.threads,
                    covered,
                    k,
                    order,
                    true,
                    r.resolved,
                )->Ok_0[i] as int == index
        }),
{
    let seed = r.cell.offered(r.threads, covered, k, order, true, r.resolved)->Ok_0;
    let p = r.branched(covered, k, order, true)->Ok_0;
    let (index, rest) = r.next(covered, k, order, true)->Some_0;
    lemma_seed_len(r, covered, k, order);
    assert(0 < seed.len() <= MAX_ATOMIC_HISTORY);
    let l = p.branches[p.pos]->Load_0;
    if r.path.traversed() {
        assert forall|i: int| 0 <= i < MAX_ATOMIC_HISTORY implies (#[trigger] l.values@[i])
            < MAX_ATOMIC_HISTORY by {
            assert(i < seed.len() ==> seed[i] < MAX_ATOMIC_HISTORY);
        }
        lemma_pushed_inv(r.path, Entry::Load(l), c);
        assert(l.pos == 0);
        assert(l.values@[0] == seed[0]);
    } else {
        assert(entry_wf(r.path.branches, r.path.pos, r.path.preemption_bound));
        assert(l.wf());
        assert(l.pos < seed.len());
        assert(l.values@[l.pos as int] == seed[l.pos as int]);
    }
    assert(seed[l.pos as int] as int == index);
}

proof fn lemma_seed_len(r: Reading, covered: Seq<usize>, k: int, order: Order)
    requires
        0 <= k < covered.len(),
        r.cell.regions.len() > 1,
        r.cell.regions[covered[k] as int].wf(),
        r.cell.offered(r.threads, covered, k, order, true, r.resolved) is Ok,
    ensures
        0 < r.cell.offered(r.threads, covered, k, order, true, r.resolved)->Ok_0.len()
            <= MAX_ATOMIC_HISTORY,
        forall|i: int|
            0 <= i < r.cell.offered(r.threads, covered, k, order, true, r.resolved)->Ok_0.len()
                ==> (#[trigger] r.cell.offered(
                r.threads,
                covered,
                k,
                order,
                true,
                r.resolved,
            )->Ok_0[i]) < MAX_ATOMIC_HISTORY,
{
    let ri = covered[k] as int;
    let view = ViewModel::at_entry(r.threads);
    let region = r.cell.regions[ri];
    let base = region.readable(r.threads, view.causality, order, region.stores.len() as int);
    crate::rt::atomic::region::lemma_readable(
        region,
        r.threads,
        view.causality,
        order,
        region.stores.len() as int,
    );
    lemma_unfloored_len(r.cell, ri, view, base, base.len() as int);
    let seed = r.cell.candidates(r.threads, ri, view, order, true);
    if covered.len() > 1 {
        lemma_kept(
            r.cell,
            r.threads,
            covered,
            k,
            order,
            r.resolved,
            seed,
            seed.len() as int,
            0,
        );
    }
    let kept = r.cell.offered(r.threads, covered, k, order, true, r.resolved)->Ok_0;
    assert forall|i: int| 0 <= i < kept.len() implies (#[trigger] kept[i]) < MAX_ATOMIC_HISTORY by {
        let j = if covered.len() > 1 {
            lemma_kept(
                r.cell,
                r.threads,
                covered,
                k,
                order,
                r.resolved,
                seed,
                seed.len() as int,
                i,
            );
            choose|j: int| 0 <= j < seed.len() && seed[j] == kept[i]
        } else {
            i
        };
        lemma_unfloored(r.cell, ri, view, base, base.len() as int, j);
        let b = choose|b: int| 0 <= b < base.len() && base[b] == seed[j];
        assert(base[b] < region.stores.len());
    }
}

proof fn lemma_unfloored_len(s: StateModel, ri: int, view: ViewModel, seed: Seq<u8>, n: int)
    requires
        0 <= n <= seed.len(),
    ensures
        s.unfloored(ri, view, seed, n).len() <= n,
    decreases n,
{
    if n > 0 {
        lemma_unfloored_len(s, ri, view, seed, n - 1);
    }
}

/// A load at the end of its path opens its branches itself.
pub proof fn lemma_fresh(r: Reading, covered: Seq<usize>, k: int, order: Order, floor: bool)
    requires
        r.path.traversed(),
        0 <= k,
    ensures
        r.replays(covered, k, order, floor),
    decreases covered.len() - k,
{
    if k < covered.len() {
        if let Some((index, rest)) = r.next(covered, k, order, floor) {
            lemma_fresh(rest, covered, k + 1, order, floor);
        }
    }
}

/// A load at the end of its path adds one branch for each region.
proof fn lemma_opened(
    r: Reading,
    covered: Seq<usize>,
    k: int,
    order: Order,
    floor: bool,
    value: u128,
)
    requires
        r.path.traversed(),
        0 <= k <= covered.len(),
    ensures
        r.cell.composed(
            r.path,
            r.threads,
            covered,
            k,
            order,
            floor,
            r.resolved,
            value,
        ) matches Ok(c) ==> {
            let from = r.path.branches.len();
            &&& c.path.branches.len() == from + covered.len() - k
            &&& forall|j: int| 0 <= j < from ==> #[trigger] c.path.branches[j] == r.path.branches[j]
        },
    decreases covered.len() - k,
{
    if k < covered.len() {
        if let Some((index, rest)) = r.next(covered, k, order, floor) {
            let region = r.cell.regions[covered[k] as int];
            lemma_opened(
                rest,
                covered,
                k + 1,
                order,
                floor,
                value | (region.stores[index].value & region.mask),
            );
        }
    }
}

/// The path `later` goes back to branch `from` of the path `q` and takes the
/// same choices from there, but for its last branch, where it may take another
/// of the same values.
pub open spec fn retraces(q: PathModel, later: PathModel, from: int) -> bool {
    &&& later.pos == from
    &&& from < later.branches.len()
    &&& forall|j: int|
        from <= j < q.branches.len() && j < later.branches.len() ==> {
            &&& q.branches[j] matches Entry::Load(a)
            &&& #[trigger] later.branches[j] matches Entry::Load(b)
            &&& b.values == a.values
            &&& b.len == a.len
            &&& j < later.branches.len() - 1 ==> b.pos == a.pos
        }
}

proof fn lemma_retraced(
    r: Reading,
    c: Seq<Frozen>,
    later: PathModel,
    q: PathModel,
    covered: Seq<usize>,
    k: int,
    order: Order,
    value: u128,
)
    requires
        in_order(r.cell, covered),
        r.threads.running(),
        r.cell.regions.len() > 1,
        forall|i: int| 0 <= i < r.cell.regions.len() ==> (#[trigger] r.cell.regions[i]).wf(),
        r.path.traversed(),
        r.path.inv(c),
        0 <= k <= covered.len(),
        r.cell.composed(
            r.path,
            r.threads,
            covered,
            k,
            order,
            true,
            r.resolved,
            value,
        ) matches Ok(n) && n.path == q,
        later.traversed() || retraces(q, later, r.path.pos),
    ensures
        (Reading { path: later, ..r }).replays(covered, k, order, true),
    decreases covered.len() - k,
{
    let s = Reading { path: later, ..r };
    if later.traversed() {
        lemma_fresh(s, covered, k, order, true);
    } else if k < covered.len() {
        let from = r.path.pos;
        let (index, rest) = r.next(covered, k, order, true)->Some_0;
        let region = r.cell.regions[covered[k] as int];
        let v = value | (region.stores[index].value & region.mask);
        lemma_opened(rest, covered, k + 1, order, true, v);
        lemma_fresh(r, covered, k, order, true);
        lemma_seed_len(r, covered, k, order);
        lemma_index(r, c, covered, k, order);
        lemma_read_wf(region, r.threads, index);
        let seed = r.cell.offered(r.threads, covered, k, order, true, r.resolved)->Ok_0;
        assert(q.branches[from] == rest.path.branches[from]);
        assert(later.branches[from] is Load);
        let a = q.branches[from]->Load_0;
        let b = later.branches[from]->Load_0;
        assert(a.values == load_values(seed) && a.len == seed.len());
        if let Some((i, after)) = s.next(covered, k, order, true) {
            if later.branches.len() == from + 1 {
                lemma_fresh(after, covered, k + 1, order, true);
            } else {
                assert(b.pos == a.pos);
                assert(i == index);
                assert(after.path.branches == later.branches);
                lemma_retraced(rest, c, after.path, q, covered, k + 1, order, v);
            }
        }
    }
}

/// A lane load replays what it opened: where a load that was made for the first
/// time is made again, of the same cell, by a thread that has seen the same, on a
/// path that goes back to its branches, each branch that it meets there is one
/// that it would open now.
pub proof fn a_load_replays_what_it_opened(
    cell: StateModel,
    path: PathModel,
    t: ThreadsModel,
    c: Seq<Frozen>,
    covered: Seq<usize>,
    order: Order,
    later: PathModel,
)
    requires
        cell.wf(),
        cell.regions.len() > 1,
        t.running(),
        path.inv(c),
        path.traversed(),
        in_order(cell, covered),
        cell.composed(path, t, covered, 0, order, true, Seq::empty(), 0) matches Ok(n) && retraces(
            n.path,
            later,
            path.pos,
        ),
    ensures
        (Reading { cell, path: later, threads: t, resolved: Seq::empty() }).replays(
            covered,
            0,
            order,
            true,
        ),
{
    let r = Reading { cell, path, threads: t, resolved: Seq::empty() };
    let q = cell.composed(path, t, covered, 0, order, true, Seq::empty(), 0)->Ok_0.path;
    lemma_retraced(r, c, later, q, covered, 0, order, 0);
}

/// A lane load never falls behind an operation that its thread has seen through
/// another lane: where operation `op_id` wrote slot `f` of a region that the
/// load covers, and the thread has seen it or what came after it through region
/// `rj`, no store before that slot is returned there.
///
/// A load that makes its choice for the first time always does so. One that
/// replays an earlier choice takes it from its path, which has to be that of the
/// same model: the branch is one that the load would open itself. On the paths of
/// a search it is, as `rt/path/faithful.rs` shows.
pub proof fn lane_loads_never_fall_behind(
    cell: StateModel,
    path: PathModel,
    t: ThreadsModel,
    c: Seq<Frozen>,
    covered: Seq<usize>,
    order: Order,
    a: int,
    rj: int,
    op_id: u64,
    f: int,
)
    requires
        cell.wf(),
        t.running(),
        path.inv(c),
        in_order(cell, covered),
        0 <= a < covered.len(),
        0 <= rj < cell.regions.len(),
        rj != covered[a],
        cell.op_seen_in(rj, op_id, ViewModel::at_entry(t)),
        0 <= f < cell.regions[covered[a] as int].stores.len(),
        cell.regions[covered[a] as int].stores[f].op_id == op_id,
        cell.composed(path, t, covered, 0, order, true, Seq::empty(), 0) is Ok,
        path.traversed() || (Reading { cell, path, threads: t, resolved: Seq::empty() }).replays(
            covered,
            0,
            order,
            true,
        ),
    ensures
        ({
            let slots = Reading { cell, path, threads: t, resolved: Seq::empty() }.slots(
                covered,
                0,
                order,
                true,
            );
            let region = cell.regions[covered[a] as int];
            &&& slots.len() == covered.len()
            &&& !ordered(region.stores[slots[a]], region.stores[f])
        }),
{
    let r = Reading { cell, path, threads: t, resolved: Seq::empty() };
    lemma_slots(r, covered, 0, order, true, 0);
    if path.traversed() {
        lemma_fresh(r, covered, 0, order, true);
    }
    lemma_lane(r, c, covered, 0, order, a, rj, op_id, f);
}

/// A thread that reads a store of operation `op_id` through a lane has seen the
/// operation there from then on.
pub proof fn reading_a_lane_sees_its_operation(
    cell: StateModel,
    t: ThreadsModel,
    later: ThreadsModel,
    rj: int,
    g: int,
)
    requires
        cell.wf(),
        t.running(),
        t.version() < u16::MAX,
        0 <= rj < cell.regions.len(),
        0 <= g < cell.regions[rj].stores.len(),
        crate::rt::atomic::laws::timely(cell.regions[rj], t),
        later.current().causality.at(t.me()) >= t.version(),
        cell.regions[rj].op_slot(cell.regions[rj].stores[g].op_id, 0) == Some(g),
    ensures
        cell.with_region(rj, cell.regions[rj].read(t, g)).op_seen_in(
            rj,
            cell.regions[rj].stores[g].op_id,
            ViewModel::at_entry(later),
        ),
{
    broadcast use FirstSeen::lemma_touched_at;

    let r = cell.regions[rj];
    let op_id = r.stores[g].op_id;
    let n = cell.with_region(rj, r.read(t, g));
    let after = n.regions[rj];
    let me = t.me();
    let view = later.current().causality;
    lemma_same_pins(r, after, op_id, 0);
    assert(after.pin(op_id) == Some(OpPin::Wrote(g as usize)));
    assert(r.stores[g].first_seen.at(me) == u16::MAX || r.stores[g].first_seen.at(me)
        <= t.version());
    assert(after.stores[g].first_seen.at(me) != u16::MAX);
    assert(after.stores[g].first_seen.at(me) <= view.at(me));
    assert(after.stores[g].first_seen.seen_in(view));
    assert(after.pin_seen(OpPin::Wrote(g as usize), g));
    assert(ViewModel::at_entry(later).saw(after.stores[g], rj as usize, g as usize));
}

} // verus!
