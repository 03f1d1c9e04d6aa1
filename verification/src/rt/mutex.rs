//! The state of a mutex.
use vstd::prelude::*;

use crate::rt::access::Access;
use crate::rt::synchronize::Synchronize;

verus! {

/// A mutex: who holds it, and what its last holder released.
#[derive(Debug, Clone, Copy)]
pub struct Mutex {
    pub last_access: Option<Access>,
    pub lock: Option<usize>,
    pub sync: Synchronize,
}

impl Mutex {
    /// A mutex that nobody holds.
    pub open spec fn fresh() -> Mutex {
        Mutex { last_access: None, lock: None, sync: Synchronize::empty() }
    }

    pub fn new() -> (r: Mutex)
        ensures
            r == Mutex::fresh(),
    {
        Mutex { last_access: None, lock: None, sync: Synchronize::new() }
    }
}

} // verus!
