//! The runtime: version vectors, paths, threads, atomic cells and executions.
use vstd::prelude::*;

pub mod access;
pub mod atomic;
pub mod backtracking;
pub mod bits;
pub mod branch;
pub mod cells;
pub mod causality;
pub mod choice;
pub mod claims;
pub mod condvar;
pub mod deference;
pub mod dependence;
pub mod execution;
pub mod fault;
pub mod fence;
pub mod happens_before;
pub mod history;
pub mod independence;
pub mod laws;
pub mod lazy_static;
pub mod memory;
pub mod mutex;
pub mod notification;
pub mod object;
pub mod ops;
pub mod order;
pub mod park;
pub mod path;
pub mod races;
pub mod sleep;
pub mod small;
pub mod synchronize;
pub mod table;
pub mod thread;
pub mod timeout;
pub mod turns;
pub mod values;
pub mod vv;
pub mod wait;

verus! {

/// Maximum number of threads in one execution.
pub const MAX_THREADS: usize = 5;

/// Maximum number of stores that a region of an atomic cell remembers.
pub const MAX_ATOMIC_HISTORY: usize = 7;

} // verus!
