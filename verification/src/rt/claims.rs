//! Ownership of the alternatives at frozen branches.
//!
//! A branch that has been frozen has a fixed choice, so its index stops being
//! recycled into some other part of the tree and `(prefix, branch)` becomes a
//! stable name. That is what makes a backtrack mark landing there
//! *deliverable* rather than lost: marks propagate upward, and a worker deep
//! in a donated subtree routinely proves that some thread had to run at an
//! ancestor it no longer owns. Writing that into its private copy would tell
//! nobody. Writing it here tells everyone.
//!
//! A record only ever gains bits: it is a join semilattice, and a claim says
//! who won, whatever the order in which the tasks come. One operation on the
//! table runs at a time; whoever shares it between workers holds it
//! exclusively for that long.
use vstd::prelude::*;

use crate::rt::bits;
use crate::rt::MAX_THREADS;

verus! {

/// What a frozen branch was when it froze.
pub struct Origin {
    /// The branch is a schedule.
    pub schedule: bool,
    /// The branch refuses marks: the preemption bound is spent.
    pub saturated: bool,
}

/// Ownership of the alternatives at one frozen branch, shared by every task
/// descended from the split that froze it.
#[derive(Clone, Copy)]
pub struct Frozen {
    /// Threads a mark may still open here: exactly those that were `Skip`
    /// when the branch froze. Nothing else is an alternative that a race can
    /// create: `Disabled` and `Yield` are never marked, and the rest are
    /// already open.
    pub markable: u16,
    /// Threads that were not `Disabled` here. A mark falls back to opening
    /// every candidate when its target cannot itself be scheduled, and a
    /// task's private copy of this branch has been overwritten, so the test
    /// has to read the state the branch actually had.
    pub enabled: u16,
    /// Alternatives that have been proven necessary.
    pub open: u16,
    /// Alternatives that somebody has taken responsibility for.
    pub claimed: u16,
    /// Threads whose open bit was set only by the preemption bound's
    /// conservative backtrack points, never by a standard mark. Measurement
    /// only; a standard mark clears the bit for good, for a conservative one
    /// sets it only where it opens the alternative.
    pub conservative: u16,
    pub origin: Ghost<Origin>,
}

impl Frozen {
    /// The open alternatives that nobody holds.
    pub open spec fn free(self) -> u16 {
        self.open & !self.claimed
    }

    pub open spec fn wf(self) -> bool {
        &&& forall|i: int|
            0 <= i < 16 && #[trigger] bits::holds(self.open, i) ==> i < MAX_THREADS
        &&& forall|i: int|
            0 <= i < 16 && #[trigger] bits::holds(self.markable, i) ==> i < MAX_THREADS
        &&& !self.origin@.schedule ==> self.open == 0 && self.markable == 0
        &&& self.origin@.saturated ==> self.free() == 0
    }

    /// `later` is what this record can have become: what the branch was stays,
    /// and neither opening nor claiming is ever taken back.
    pub open spec fn evolves(self, later: Frozen) -> bool {
        &&& later.markable == self.markable
        &&& later.enabled == self.enabled
        &&& later.origin == self.origin
        &&& forall|i: int|
            0 <= i < 16 && #[trigger] bits::holds(self.open, i) ==> bits::holds(later.open, i)
        &&& forall|i: int|
            0 <= i < 16 && #[trigger] bits::holds(self.claimed, i) ==> bits::holds(
                later.claimed,
                i,
            )
    }

    /// The record with the alternatives in `mask` proven necessary.
    pub open spec fn opened(self, mask: u16, conservative: bool) -> Frozen {
        if mask == 0 {
            self
        } else {
            Frozen {
                open: self.open | mask,
                conservative: if conservative {
                    self.conservative | (mask & !self.open)
                } else {
                    self.conservative & !mask
                },
                ..self
            }
        }
    }

    /// The record with alternative `t` taken.
    pub open spec fn taken(self, t: int) -> Frozen {
        Frozen { claimed: self.claimed | bits::only(t), ..self }
    }

    /// The record of a schedule that still takes marks.
    pub fn new(markable: u16, enabled: u16, open: u16, claimed: u16, conservative: u16) -> (r:
        Frozen)
        ensures
            r == (Frozen {
                markable,
                enabled,
                open,
                claimed,
                conservative,
                origin: Ghost(Origin { schedule: true, saturated: false }),
            }),
    {
        Frozen {
            markable,
            enabled,
            open,
            claimed,
            conservative,
            origin: Ghost(Origin { schedule: true, saturated: false }),
        }
    }

    /// Prove that these threads must be explored here. Idempotent.
    pub fn open(&mut self, mask: u16, conservative: bool)
        ensures
            *final(self) == old(self).opened(mask, conservative),
    {
        if mask != 0 {
            if conservative {
                self.conservative = self.conservative | (mask & !self.open);
            } else {
                self.conservative = self.conservative & !mask;
            }
            self.open = self.open | mask;
        }
    }

    /// Whether this alternative is (still) only conservatively justified.
    pub fn is_conservative(&self, thread: usize) -> (r: bool)
        requires
            thread < 16,
        ensures
            r == bits::holds(self.conservative, thread as int),
    {
        bits::test(self.conservative, thread)
    }

    /// Take responsibility for the next alternative nobody holds, or `None`
    /// when this branch is entirely spoken for.
    pub fn claim_next(&mut self) -> (r: Option<usize>)
        ensures
            match bits::first(old(self).free()) {
                Some(t) => r == Some(t as usize) && 0 <= t < 16 && *final(self) == old(self).taken(
                    t,
                ),
                None => r is None && *final(self) == *old(self),
            },
    {
        let free: u16 = self.open & !self.claimed;
        match bits::lowest(free) {
            Some(t) => {
                self.claimed = self.claimed | bits::bit(t);
                Some(t)
            },
            None => None,
        }
    }

    /// Take responsibility for one specific alternative, reporting whether
    /// this caller is the one that got it.
    pub fn claim(&mut self, thread: usize) -> (r: bool)
        requires
            thread < 16,
        ensures
            r == !bits::holds(old(self).claimed, thread as int),
            *final(self) == old(self).taken(thread as int),
    {
        let won: bool = !bits::test(self.claimed, thread);
        self.claimed = self.claimed | bits::bit(thread);
        won
    }

    /// Alternatives proven necessary here so far. Monotone: a set bit is a
    /// standing promise that some task fully explores that alternative, so a
    /// reader may defer to any bit it observes.
    pub fn open_mask(&self) -> (r: u16)
        ensures
            r == self.open,
    {
        self.open
    }

    /// A record only gains bits, and an alternative is claimed by at most one
    /// task: a claim returns a thread that was open and that nobody held.
    pub proof fn claim_takes_what_nobody_holds(self)
        ensures
            bits::first(self.free()) matches Some(t) ==> {
                &&& bits::holds(self.open, t)
                &&& !bits::holds(self.claimed, t)
                &&& bits::holds(self.taken(t).claimed, t)
                &&& bits::first(self.taken(t).free()) != Some(t)
                &&& self.evolves(self.taken(t))
            },
    {
        broadcast use bits::group_bits;

        bits::lemma_first(self.free());
        if let Some(t) = bits::first(self.free()) {
            assert(bits::holds(self.open & !self.claimed, t));
            bits::lemma_first(self.taken(t).free());
        }
    }

    /// Opening only adds alternatives, and opening the same ones again changes
    /// nothing.
    pub proof fn open_is_monotone_and_idempotent(self, mask: u16, conservative: bool)
        ensures
            self.evolves(self.opened(mask, conservative)),
            self.opened(mask, conservative).opened(mask, conservative) == self.opened(
                mask,
                conservative,
            ),
    {
        broadcast use bits::group_bits;

        let a = self.opened(mask, conservative);
        let b = a.opened(mask, conservative);
        bits::lemma_ext(a.open, b.open);
        bits::lemma_ext(a.conservative, b.conservative);
    }

    /// A standard mark is final: an alternative that it opened never counts as
    /// only conservatively justified again, whatever is marked later.
    pub proof fn a_standard_mark_is_final(self, mask: u16, other: u16, conservative: bool, t: int)
        requires
            0 <= t < 16,
        ensures
            bits::holds(mask, t) ==> !bits::holds(self.opened(mask, false).conservative, t),
            bits::holds(self.open, t) && !bits::holds(self.conservative, t) ==> !bits::holds(
                self.opened(other, conservative).conservative,
                t,
            ),
    {
        broadcast use bits::group_bits;

    }

    pub proof fn lemma_evolves_trans(a: Frozen, b: Frozen, c: Frozen)
        requires
            a.evolves(b),
            b.evolves(c),
        ensures
            a.evolves(c),
    {
    }
}

/// The records of all frozen branches of one search.
pub struct Claims {
    records: Vec<Frozen>,
}

impl View for Claims {
    type V = Seq<Frozen>;

    closed spec fn view(&self) -> Seq<Frozen> {
        self.records@
    }
}

/// Every record of the table is valid.
pub open spec fn claims_wf(c: Seq<Frozen>) -> bool {
    forall|i: int| 0 <= i < c.len() ==> (#[trigger] c[i]).wf()
}

/// `later` is what the table can have become.
pub open spec fn claims_evolve(c: Seq<Frozen>, later: Seq<Frozen>) -> bool {
    &&& c.len() <= later.len()
    &&& forall|i: int| 0 <= i < c.len() ==> (#[trigger] c[i]).evolves(later[i])
}

/// Evolution composes.
pub proof fn lemma_claims_evolve_trans(a: Seq<Frozen>, b: Seq<Frozen>, c: Seq<Frozen>)
    requires
        claims_evolve(a, b),
        claims_evolve(b, c),
    ensures
        claims_evolve(a, c),
{
    assert forall|i: int| 0 <= i < a.len() implies (#[trigger] a[i]).evolves(c[i]) by {
        Frozen::lemma_evolves_trans(a[i], b[i], c[i]);
    }
}

pub proof fn lemma_taken_wf(r: Frozen, t: int)
    requires
        r.wf(),
        0 <= t < 16,
    ensures
        r.taken(t).wf(),
        r.evolves(r.taken(t)),
{
    broadcast use bits::group_bits;

    bits::lemma_empty(r.free());
    bits::lemma_empty(r.taken(t).free());
    if r.free() == 0 {
        assert forall|i: int| 0 <= i < 16 implies !#[trigger] bits::holds(r.taken(t).free(), i) by {
            assert(!bits::holds(r.free(), i));
        }
    }
}

pub proof fn lemma_opened_wf(r: Frozen, mask: u16, conservative: bool)
    requires
        r.wf(),
        !r.origin@.saturated,
        forall|i: int| 0 <= i < 16 && #[trigger] bits::holds(mask, i) ==> bits::holds(r.markable, i),
    ensures
        r.opened(mask, conservative).wf(),
        r.evolves(r.opened(mask, conservative)),
{
    broadcast use bits::group_bits;

    r.open_is_monotone_and_idempotent(mask, conservative);
    if !r.origin@.schedule {
        assert forall|i: int| 0 <= i < 16 implies !#[trigger] bits::holds(mask, i) by {}
        bits::lemma_empty(mask);
    }
}

impl Claims {
    pub fn new() -> (r: Claims)
        ensures
            r@ == Seq::<Frozen>::empty(),
            claims_wf(r@),
    {
        Claims { records: Vec::new() }
    }

    pub(crate) fn len(&self) -> (r: usize)
        ensures
            r == self@.len(),
    {
        self.records.len()
    }

    pub(crate) fn get(&self, id: usize) -> (r: Frozen)
        requires
            id < self@.len(),
        ensures
            r == self@[id as int],
    {
        self.records[id]
    }

    pub(crate) fn set(&mut self, id: usize, record: Frozen)
        requires
            id < old(self)@.len(),
        ensures
            final(self)@ == old(self)@.update(id as int, record),
    {
        self.records[id] = record;
    }

    pub(crate) fn add(&mut self, record: Frozen) -> (r: usize)
        ensures
            r == old(self)@.len(),
            final(self)@ == old(self)@.push(record),
    {
        let id: usize = self.records.len();
        self.records.push(record);
        id
    }
}

} // verus!
