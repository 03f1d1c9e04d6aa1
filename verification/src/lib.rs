//! A permutation tester for concurrent code.
//!
//! The crate holds the decision logic of the tester: the C11 memory model
//! over version vectors, the depth-first walk over schedules with dynamic
//! partial-order reduction, and the bookkeeping that shards the walk. Running
//! the code under test, threads and files are left to the surrounding program.
pub mod rt;
pub mod sync;
pub mod model;
