//! What an operation does to the bits of a cell.
use vstd::prelude::*;

use crate::rt::thread::Action;

verus! {

/// Mask of a full-width access: every bit of the 128-bit cell.
pub const FULL_MASK: u128 = 0xffff_ffff_ffff_ffff_ffff_ffff_ffff_ffff;

impl Action {
    /// The bits this action reads.
    pub open spec fn reads(self) -> u128 {
        match self {
            Action::Opaque => FULL_MASK,
            Action::Load { mask } => mask,
            Action::Store { .. } => 0,
            Action::Rmw { read, .. } => read,
        }
    }

    /// The bits this action may change.
    pub open spec fn writes(self) -> u128 {
        match self {
            Action::Opaque => FULL_MASK,
            Action::Load { .. } => 0,
            Action::Store { mask } => mask,
            Action::Rmw { write, .. } => write,
        }
    }

    /// The bits this action touches at all.
    pub open spec fn touches(self) -> u128 {
        self.reads() | self.writes()
    }

    /// Two actions on one object depend on each other: one of them writes bits
    /// that the other reads or writes.
    pub open spec fn conflicts(self, other: Action) -> bool {
        ||| self.writes() & other.reads() != 0
        ||| self.reads() & other.writes() != 0
        ||| self.writes() & other.writes() != 0
    }

    pub fn read_mask(self) -> (r: u128)
        ensures
            r == self.reads(),
    {
        match self {
            Action::Opaque => FULL_MASK,
            Action::Load { mask } => mask,
            Action::Store { .. } => 0,
            Action::Rmw { read, .. } => read,
        }
    }

    pub fn write_mask(self) -> (r: u128)
        ensures
            r == self.writes(),
    {
        match self {
            Action::Opaque => FULL_MASK,
            Action::Load { .. } => 0,
            Action::Store { mask } => mask,
            Action::Rmw { write, .. } => write,
        }
    }

    /// The bits this action touches at all: the regions it must resolve.
    pub fn mask(self) -> (r: u128)
        ensures
            r == self.touches(),
    {
        self.read_mask() | self.write_mask()
    }

    /// Dependence between two operations on one object: the ordinary
    /// read/write dependence over the bit masks. A preserving
    /// read-modify-write's preserved lane commutes with that lane's readers,
    /// exactly as a load of it would.
    pub fn conflicts_with(self, other: Action) -> (r: bool)
        ensures
            r == self.conflicts(other),
    {
        self.write_mask() & other.read_mask() != 0 || self.read_mask() & other.write_mask() != 0
            || self.write_mask() & other.write_mask() != 0
    }
}

/// Dependence is symmetric.
pub proof fn conflicts_are_mutual(a: Action, b: Action)
    ensures
        a.conflicts(b) == b.conflicts(a),
{
    assert forall|x: u128, y: u128| #[trigger] (x & y) == y & x by {
        assert(x & y == y & x) by (bit_vector);
    }
}

/// Two loads never depend on each other.
pub proof fn loads_do_not_conflict(a: u128, b: u128)
    ensures
        !(Action::Load { mask: a }).conflicts(Action::Load { mask: b }),
{
    assert(0u128 & b == 0 && a & 0u128 == 0 && 0u128 & 0u128 == 0) by (bit_vector);
}

/// What conflicts with what, by the bits: a load with a store, or two stores,
/// where they share a bit; a read-modify-write with a load only in the bits
/// that it may change, and with a store in all that it reads or changes; and
/// an opaque operation with everything that touches a bit.
pub proof fn conflicts_are_where_bits_are_shared(a: u128, b: u128, read: u128, write: u128)
    ensures
        (Action::Load { mask: a }).conflicts(Action::Store { mask: b }) <==> a & b != 0,
        (Action::Store { mask: a }).conflicts(Action::Store { mask: b }) <==> a & b != 0,
        (Action::Rmw { read, write }).conflicts(Action::Load { mask: a }) <==> write & a != 0,
        (Action::Rmw { read, write }).conflicts(Action::Store { mask: a }) <==> (read & a != 0
            || write & a != 0),
        (Action::Rmw { read, write }).conflicts(Action::Rmw { read: a, write: b }) <==> (write & a
            != 0 || read & b != 0 || write & b != 0),
        Action::Opaque.conflicts(Action::Load { mask: a }) <==> a != 0,
        Action::Opaque.conflicts(Action::Store { mask: a }) <==> a != 0,
        Action::Opaque.conflicts(Action::Rmw { read, write }) <==> (read != 0 || write != 0),
        Action::Opaque.conflicts(Action::Opaque),
{
    lemma_zero_and_full(0, 0);
    lemma_zero_and_full(a, b);
    lemma_zero_and_full(read, write);
    lemma_zero_and_full(FULL_MASK, FULL_MASK);
}

proof fn lemma_zero_and_full(a: u128, b: u128)
    by (bit_vector)
    ensures
        0u128 & a == 0 && a & 0u128 == 0 && 0u128 & b == 0 && b & 0u128 == 0,
        0xffff_ffff_ffff_ffff_ffff_ffff_ffff_ffffu128 & a == a,
        0xffff_ffff_ffff_ffff_ffff_ffff_ffff_ffffu128 & b == b,
{
}

} // verus!
