//! Version vectors: one counter per thread.
use std::cmp::Ordering;
use vstd::array::spec_array_update;
use vstd::prelude::*;

use crate::rt::MAX_THREADS;

verus! {

/// Version lanes: `MAX_THREADS` rounded up to eight, a whole 128-bit register
/// of `u16`s. The padding lanes `MAX_THREADS..LANES` are structurally zero:
/// every write goes through a thread index (`< MAX_THREADS`) or `join`
/// (lane-max of two zeros), so they are inert in every comparison.
pub const LANES: usize = 8;

/// The larger of two versions.
pub open spec fn max_version(a: u16, b: u16) -> u16 {
    if a >= b {
        a
    } else {
        b
    }
}

/// A vector clock.
#[derive(Debug, Clone, Copy)]
pub struct VersionVec {
    versions: [u16; LANES],
}

impl VersionVec {
    #[verifier::type_invariant]
    spec fn padding_is_zero(self) -> bool {
        forall|i: int| MAX_THREADS <= i < LANES ==> self.versions@[i] == 0
    }

    /// The version in lane `i`.
    pub closed spec fn at(self, i: int) -> u16 {
        self.versions@[i]
    }

    /// The vector that has seen nothing.
    pub closed spec fn zero() -> VersionVec {
        VersionVec { versions: [0, 0, 0, 0, 0, 0, 0, 0] }
    }

    /// The lane-wise maximum of two vectors.
    pub closed spec fn joined(self, o: VersionVec) -> VersionVec {
        VersionVec {
            versions: [
                max_version(self.at(0), o.at(0)),
                max_version(self.at(1), o.at(1)),
                max_version(self.at(2), o.at(2)),
                max_version(self.at(3), o.at(3)),
                max_version(self.at(4), o.at(4)),
                max_version(self.at(5), o.at(5)),
                max_version(self.at(6), o.at(6)),
                max_version(self.at(7), o.at(7)),
            ],
        }
    }

    /// The vector with one lane advanced by one.
    pub closed spec fn bumped(self, id: int) -> VersionVec {
        VersionVec {
            versions: spec_array_update(self.versions, id, (self.at(id) + 1) as u16),
        }
    }

    /// Every lane of `self` is at most the same lane of `o`.
    pub open spec fn below(self, o: VersionVec) -> bool {
        forall|i: int| 0 <= i < LANES ==> #[trigger] self.at(i) <= o.at(i)
    }

    /// `self` is below `o` and differs from it.
    pub open spec fn strictly_below(self, o: VersionVec) -> bool {
        self.below(o) && !o.below(self)
    }

    /// The first lane from `i` on in which `o` is ahead of `self`.
    pub open spec fn first_ahead(self, o: VersionVec, i: int) -> Option<usize>
        decreases LANES - i,
    {
        if i >= LANES {
            None
        } else if self.at(i) < o.at(i) {
            Some(i as usize)
        } else {
            self.first_ahead(o, i + 1)
        }
    }

    /// Two vectors with equal lanes are the same vector.
    pub proof fn lemma_ext(a: VersionVec, b: VersionVec)
        requires
            forall|i: int| 0 <= i < LANES ==> #[trigger] a.at(i) == b.at(i),
        ensures
            a == b,
    {
        assert forall|i: int| 0 <= i < LANES implies #[trigger] a.versions[i] == b.versions[i] by {
            assert(a.at(i) == b.at(i));
        }
        assert(a.versions =~= b.versions);
    }

    pub broadcast proof fn lemma_joined_at(a: VersionVec, b: VersionVec, i: int)
        requires
            0 <= i < LANES,
        ensures
            #[trigger] a.joined(b).at(i) == max_version(a.at(i), b.at(i)),
    {
    }

    pub broadcast proof fn lemma_zero_at(i: int)
        requires
            0 <= i < LANES,
        ensures
            #[trigger] VersionVec::zero().at(i) == 0,
    {
    }

    pub broadcast proof fn lemma_bumped_at(a: VersionVec, id: int, i: int)
        requires
            0 <= i < LANES,
            0 <= id < LANES,
            a.at(id) < u16::MAX,
        ensures
            #[trigger] a.bumped(id).at(i) == if i == id {
                (a.at(i) + 1) as u16
            } else {
                a.at(i)
            },
    {
    }

    /// Joining is commutative.
    pub proof fn join_commutes(a: VersionVec, b: VersionVec)
        ensures
            a.joined(b) == b.joined(a),
    {
        broadcast use VersionVec::lemma_joined_at;

        VersionVec::lemma_ext(a.joined(b), b.joined(a));
    }

    /// Joining is associative.
    pub proof fn join_associates(a: VersionVec, b: VersionVec, c: VersionVec)
        ensures
            a.joined(b).joined(c) == a.joined(b.joined(c)),
    {
        broadcast use VersionVec::lemma_joined_at;

        VersionVec::lemma_ext(a.joined(b).joined(c), a.joined(b.joined(c)));
    }

    /// Joining a vector that is already contained changes nothing, and only
    /// then.
    pub proof fn join_absorbs(a: VersionVec, b: VersionVec)
        ensures
            b.below(a) <==> a.joined(b) == a,
    {
        broadcast use VersionVec::lemma_joined_at;

        if b.below(a) {
            assert forall|i: int| 0 <= i < LANES implies #[trigger] a.joined(b).at(i) == a.at(i) by {
                assert(b.at(i) <= a.at(i));
            }
            VersionVec::lemma_ext(a.joined(b), a);
        }
        if a.joined(b) == a {
            assert forall|i: int| 0 <= i < LANES implies #[trigger] b.at(i) <= a.at(i) by {
                assert(a.joined(b).at(i) == max_version(a.at(i), b.at(i)));
            }
        }
    }

    /// The join is the least vector above both.
    pub proof fn join_is_least_upper_bound(a: VersionVec, b: VersionVec, c: VersionVec)
        ensures
            a.below(a.joined(b)),
            b.below(a.joined(b)),
            a.below(c) && b.below(c) ==> a.joined(b).below(c),
    {
        broadcast use VersionVec::lemma_joined_at;

        assert forall|i: int| 0 <= i < LANES implies #[trigger] b.at(i) <= a.joined(b).at(i) by {}
        if a.below(c) && b.below(c) {
            assert forall|i: int| 0 <= i < LANES implies #[trigger] a.joined(b).at(i) <= c.at(i) by {
                assert(a.at(i) <= c.at(i));
                assert(b.at(i) <= c.at(i));
            }
        }
    }

    /// `below` is a partial order.
    pub proof fn below_is_partial_order(a: VersionVec, b: VersionVec, c: VersionVec)
        ensures
            a.below(a),
            a.below(b) && b.below(a) ==> a == b,
            a.below(b) && b.below(c) ==> a.below(c),
    {
        if a.below(b) && b.below(a) {
            assert forall|i: int| 0 <= i < LANES implies #[trigger] a.at(i) == b.at(i) by {
                assert(b.at(i) <= a.at(i));
            }
            VersionVec::lemma_ext(a, b);
        }
        if a.below(b) && b.below(c) {
            assert forall|i: int| 0 <= i < LANES implies #[trigger] a.at(i) <= c.at(i) by {
                assert(b.at(i) <= c.at(i));
            }
        }
    }

    pub fn new() -> (r: VersionVec)
        ensures
            r == VersionVec::zero(),
    {
        let r = VersionVec { versions: [0u16;LANES] };
        proof {
            VersionVec::lemma_ext(r, VersionVec::zero());
        }
        r
    }

    /// The raw lane array, with the always-zero padding lanes.
    pub fn lanes(&self) -> (r: &[u16; LANES])
        ensures
            forall|i: int| 0 <= i < LANES ==> #[trigger] r@[i] == self.at(i),
            forall|i: int| MAX_THREADS <= i < LANES ==> #[trigger] r@[i] == 0,
    {
        proof {
            use_type_invariant(self);
        }
        &self.versions
    }

    /// Advance the clock of one thread.
    pub fn inc(&mut self, id: usize)
        requires
            id < MAX_THREADS,
            old(self).at(id as int) < u16::MAX,
        ensures
            *final(self) == old(self).bumped(id as int),
    {
        proof {
            use_type_invariant(&*self);
        }
        let mut versions: [u16; LANES] = self.versions;
        versions[id] = versions[id] + 1;
        self.versions = versions;
        proof {
            broadcast use VersionVec::lemma_bumped_at;

            VersionVec::lemma_ext(*self, old(self).bumped(id as int));
        }
    }

    /// Read a single lane by raw index.
    ///
    /// Vector clocks are transitively closed, so for an operation stamped
    /// `(thread, tick)`, one lane decides whether a vector contains that
    /// operation's entire causal snapshot.
    pub fn lane(&self, lane: usize) -> (r: u16)
        requires
            lane < LANES,
        ensures
            r == self.at(lane as int),
    {
        self.versions[lane]
    }

    /// Take the lane-wise maximum with `other`.
    pub fn join(&mut self, other: &VersionVec)
        ensures
            *final(self) == old(self).joined(*other),
    {
        proof {
            use_type_invariant(&*self);
            use_type_invariant(other);
        }
        let mut versions: [u16; LANES] = self.versions;
        let mut i: usize = 0;
        while i < LANES
            invariant
                0 <= i <= LANES,
                forall|k: int|
                    0 <= k < i ==> #[trigger] versions@[k] == max_version(
                        self.versions@[k],
                        other.versions@[k],
                    ),
                forall|k: int| i <= k < LANES ==> #[trigger] versions@[k] == self.versions@[k],
            decreases LANES - i,
        {
            if versions[i] < other.versions[i] {
                versions[i] = other.versions[i];
            }
            i += 1;
        }
        self.versions = versions;
        proof {
            broadcast use VersionVec::lemma_joined_at;

            VersionVec::lemma_ext(*self, old(self).joined(*other));
        }
    }

    /// True when `self <= other` in every lane: the one-sided form of
    /// `partial_cmp`.
    pub fn is_le(&self, other: &VersionVec) -> (r: bool)
        ensures
            r == self.below(*other),
    {
        let mut i: usize = 0;
        while i < LANES
            invariant
                0 <= i <= LANES,
                forall|k: int| 0 <= k < i ==> #[trigger] self.at(k) <= other.at(k),
            decreases LANES - i,
        {
            if self.versions[i] > other.versions[i] {
                assert(self.at(i as int) > other.at(i as int));
                return false;
            }
            i += 1;
        }
        true
    }

    /// The first thread, if any, that is ahead of `self` in `other`.
    pub fn ahead(&self, other: &VersionVec) -> (r: Option<usize>)
        ensures
            r == self.first_ahead(*other, 0),
            r is None <==> other.below(*self),
            r matches Some(lane) ==> lane < MAX_THREADS && self.at(lane as int) < other.at(
                lane as int,
            ),
    {
        proof {
            use_type_invariant(self);
            use_type_invariant(other);
        }
        let mut i: usize = 0;
        while i < LANES
            invariant
                0 <= i <= LANES,
                self.padding_is_zero(),
                other.padding_is_zero(),
                forall|k: int| 0 <= k < i ==> #[trigger] self.at(k) >= other.at(k),
                self.first_ahead(*other, 0) == self.first_ahead(*other, i as int),
            decreases LANES - i,
        {
            if self.versions[i] < other.versions[i] {
                assert(other.at(i as int) > self.at(i as int));
                return Some(i);
            }
            i += 1;
        }
        assert forall|k: int| 0 <= k < LANES implies #[trigger] other.at(k) <= self.at(k) by {
            assert(self.at(k) >= other.at(k));
        }
        None
    }
}

impl PartialEq for VersionVec {
    fn eq(&self, other: &VersionVec) -> (r: bool) {
        let r = self.is_le(other) && other.is_le(self);
        proof {
            VersionVec::below_is_partial_order(*self, *other, *self);
        }
        r
    }
}

impl vstd::std_specs::cmp::PartialEqSpecImpl for VersionVec {
    open spec fn obeys_eq_spec() -> bool {
        true
    }

    open spec fn eq_spec(&self, other: &VersionVec) -> bool {
        *self == *other
    }
}

impl Eq for VersionVec {

}

impl PartialOrd for VersionVec {
    fn partial_cmp(&self, other: &VersionVec) -> (r: Option<Ordering>) {
        let le = self.is_le(other);
        let ge = other.is_le(self);
        if le && ge {
            Some(Ordering::Equal)
        } else if le {
            Some(Ordering::Less)
        } else if ge {
            Some(Ordering::Greater)
        } else {
            None
        }
    }
}

impl vstd::std_specs::cmp::PartialOrdSpecImpl for VersionVec {
    open spec fn obeys_partial_cmp_spec() -> bool {
        true
    }

    open spec fn partial_cmp_spec(&self, other: &VersionVec) -> Option<Ordering> {
        if self.below(*other) && other.below(*self) {
            Some(Ordering::Equal)
        } else if self.below(*other) {
            Some(Ordering::Less)
        } else if other.below(*self) {
            Some(Ordering::Greater)
        } else {
            None
        }
    }
}

} // verus!
