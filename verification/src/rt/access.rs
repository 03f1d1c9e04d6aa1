//! Accesses that the partial-order reduction remembers.
use vstd::prelude::*;

use crate::rt::vv::VersionVec;
use crate::rt::MAX_THREADS;

verus! {

/// A past access to an object: where on the path it happened, and the clock of
/// the operation.
#[derive(Debug, Clone, Copy)]
pub struct Access {
    pub path_id: usize,
    pub dpor_vv: VersionVec,
}

/// The last access of each thread.
pub type Accesses = [Option<Access>; MAX_THREADS];

impl Access {
    /// The access happens before an operation with clock `version`.
    pub open spec fn precedes(self, version: VersionVec) -> bool {
        self.dpor_vv.below(version)
    }

    pub fn happens_before(&self, version: &VersionVec) -> (r: bool)
        ensures
            r == self.precedes(*version),
    {
        self.dpor_vv.is_le(version)
    }
}

} // verus!
