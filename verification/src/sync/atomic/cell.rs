//! How a cell names its registration in the current execution.
use vstd::prelude::*;

use crate::rt::claims::{Claims, Frozen};
use crate::rt::execution::{ExecModel, Execution};
use crate::rt::fault::Fault;

verus! {

/// A cell as the code under test holds it. What differs between the
/// representations is how identity is established, never what the operations
/// mean.
#[derive(Debug, Clone, Copy, PartialEq, Eq)]
pub enum Cell {
    /// Registered when it was constructed.
    Registered { object: usize },
    /// Built before any execution: the minted identity travels with it, and
    /// `init` is its value before any store.
    Deferred { id: u64, init: u128 },
    /// Carved from published memory: its address is its identity.
    Materialized { addr: u64 },
}

impl Cell {
    /// A registered cell names a cell of the execution.
    pub open spec fn fits(self, e: ExecModel) -> bool {
        match self {
            Cell::Registered { object } => e.is_cell(object as int),
            _ => true,
        }
    }

    /// The execution after the cell was resolved, and its object.
    pub open spec fn resolved(self, e: ExecModel) -> Result<(ExecModel, usize), Fault> {
        match self {
            Cell::Registered { object } => Ok((e, object)),
            Cell::Deferred { id, init } => Ok(e.registered(id, init)),
            Cell::Materialized { addr } => e.materialized_at(addr),
        }
    }

    /// The object of the cell in this execution, which a cell that is not
    /// registered yet gets on its first access.
    pub fn resolve(&self, execution: &mut Execution, claims: &Claims) -> (r: Result<usize, Fault>)
        requires
            old(execution)@.running(claims@),
            self.fits(old(execution)@),
        ensures
            match self.resolved(old(execution)@) {
                Ok((e, object)) => {
                    &&& r == Ok::<usize, Fault>(object)
                    &&& final(execution)@ == e
                    &&& e.running(claims@)
                    &&& e.is_cell(object as int)
                },
                Err(f) => r == Err::<usize, Fault>(f),
            },
    {
        match *self {
            Cell::Registered { object } => Ok(object),
            Cell::Deferred { id, init } => Ok(execution.register(claims, id, init)),
            Cell::Materialized { addr } => execution.resolve_materialized(claims, addr),
        }
    }

    /// Checks, after an operation on `object` was begun, that the cell still
    /// names it: the code under test may have written through an invalid
    /// pointer into the cell's own memory.
    pub fn confirm(&self, execution: &mut Execution, claims: &Claims, object: usize) -> (r: Result<
        (),
        Fault,
    >)
        requires
            old(execution)@.running(claims@),
            self.fits(old(execution)@),
        ensures
            match self.resolved(old(execution)@) {
                Ok((e, again)) => {
                    &&& final(execution)@ == e
                    &&& r == if again == object {
                        Ok::<(), Fault>(())
                    } else {
                        Err(Fault::Corrupted)
                    }
                },
                Err(f) => r == Err::<(), Fault>(f),
            },
    {
        match self.resolve(execution, claims) {
            Ok(again) => if again == object {
                Ok(())
            } else {
                Err(Fault::Corrupted)
            },
            Err(f) => Err(f),
        }
    }
}

/// A cell that resolved keeps naming its object: what it resolved to is what
/// it resolves to again, and resolving again changes nothing.
pub proof fn resolution_is_stable(cell: Cell, e: ExecModel)
    requires
        cell.resolved(e) is Ok,
    ensures
        cell.resolved(cell.resolved(e)->Ok_0.0) == cell.resolved(e),
{
}

/// Two deferred cells share a registration only if they share their identity.
pub proof fn deferred_cells_are_kept_apart(e: ExecModel, c: Seq<Frozen>, i: u64, j: u64, a: u128, b: u128)
    requires
        e.inv(c),
        e.objects.len() < usize::MAX,
        i != j,
    ensures
        e.registered(i, a).1 != e.registered(i, a).0.registered(j, b).1,
{
    if e.deferred.contains_key(i) {
        assert(e.deferred[i] < e.objects.len());
    }
    if e.deferred.contains_key(j) {
        assert(e.deferred[j] < e.objects.len());
    }
}

/// Two materialized cells share a registration only if they share their
/// address.
pub proof fn materialized_cells_are_kept_apart(e: ExecModel, c: Seq<Frozen>, a: u64, b: u64)
    requires
        e.inv(c),
        e.objects.len() < usize::MAX,
        a != b,
        e.materialized_at(a) is Ok,
        e.materialized_at(a)->Ok_0.0.materialized_at(b) is Ok,
    ensures
        e.materialized_at(a)->Ok_0.1 != e.materialized_at(a)->Ok_0.0.materialized_at(b)->Ok_0.1,
{
    if e.materialized.contains_key(a) {
        assert(e.materialized[a] < e.objects.len());
    }
    if e.materialized.contains_key(b) {
        assert(e.materialized[b] < e.objects.len());
    }
}

} // verus!
