//! Atomic cells.
pub mod action;
pub mod coherence;
pub mod laws;
pub mod load;
pub mod preserve;
pub mod region;
pub mod rmw;
pub mod snapshot;
pub mod state;
pub mod store;
pub mod write;
