//! What stops an execution.
use vstd::prelude::*;

verus! {

/// Two accesses to one cell that nothing orders: the one that is made, and the
/// earlier one that it does not happen after.
#[derive(Debug, Clone, Copy, PartialEq, Eq, Structural)]
pub enum Race {
    /// An atomic load, and `with_mut`.
    LoadMut,
    /// `unsync_load`, and `with_mut`.
    UnsyncLoadMut,
    /// `unsync_load`, and an atomic store.
    UnsyncLoadStore,
    /// An atomic store, and `with_mut`.
    StoreMut,
    /// An atomic store, and `unsync_load`.
    StoreUnsyncLoad,
    /// `with_mut`, and an atomic load.
    MutLoad,
    /// `with_mut`, and `unsync_load`.
    MutUnsyncLoad,
    /// `with_mut`, and an atomic store.
    MutStore,
    /// `with_mut`, and another `with_mut`.
    MutMut,
}

/// The reason for which an execution cannot go on. After a fault the execution
/// is abandoned: nothing is said of the state that it leaves behind.
#[derive(Debug, Clone, Copy, PartialEq, Eq, Structural)]
pub enum Fault {
    /// The model exceeded the maximum number of branches. This is often caused
    /// by an algorithm requiring the processor to make progress, e.g. spin
    /// locks.
    BranchLimit,
    /// The replayed path does not fit the operation: the model is not
    /// deterministic.
    Nondeterministic,
    /// A counter of the model has reached the end of its range.
    Exhausted,
    /// The atomic cell is in a `with_mut` call.
    Mutating,
    /// A causality violation: the access races with an earlier one of
    /// `thread`.
    Causality { race: Race, thread: usize },
    /// A read-modify-write may change bits that it does not consult.
    WriteOutsideRead,
    /// A preserving read-modify-write changed bits outside its write mask: the
    /// preserved lane is not preserved.
    PreservedChanged,
    /// An acquiring read of a preserved lane cannot reach the preserving
    /// operation's own bits, so there is no store here to read from and no
    /// release to acquire.
    PreservedAcquire,
    /// A preserving read-modify-write over a lane that another thread has
    /// already acquire-read without reaching the bits that the operation
    /// writes.
    PreservedAcquired,
    /// An acquire fence over a cell that the thread read only through a
    /// preserved lane: the fence cannot draw the preserving operation's
    /// release.
    PreservedFence,
    /// The coherence floor of a lane load left no store to read.
    NoReadableStore,
    /// No assignment of stores to the regions of a wide load forms a
    /// consistent snapshot.
    TornLoad,
    /// There is no such thing as a relaxed fence.
    RelaxedFence,
    /// The materialized atomic at this address is not in any published region.
    NotPublished { addr: u64 },
    /// Every thread that is not done is blocked.
    Deadlock,
    /// The execution has as many threads as it may have.
    TooManyThreads,
    /// The mutex is held by another thread.
    Locked,
    /// The cell resolved to another registration after the branch than before
    /// it. This is usually due to a bug in the algorithm being tested writing
    /// in an invalid memory location.
    Corrupted,
}

} // verus!
