//! The synchronization primitives of the code under test.
pub mod atomic;
pub mod condvar;
