//! How atomic cells come to be, and their unsynchronized accesses.
use vstd::prelude::*;

use crate::rt::atomic::state::{State, StateModel};
use crate::rt::claims::{Claims, Frozen};
use crate::rt::execution::{
    lemma_names_cells_same, names_cells, ExecModel, Execution, PublishedRegion,
};
use crate::rt::fault::Fault;
use crate::rt::object::{Object, ObjectModel};
use crate::rt::ops::lemma_with_cell_inv;
use crate::rt::table::{in_range, is_in_range, table_get, table_insert};
use crate::rt::vv::VersionVec;

verus! {

/// The source of cell identities. Monotone, so one identity is valid across
/// every execution and every worker. Zero is reserved for "not yet minted".
pub struct CellIds {
    next: u64,
}

impl View for CellIds {
    type V = u64;

    closed spec fn view(&self) -> u64 {
        self.next
    }
}

impl CellIds {
    #[verifier::type_invariant]
    spec fn never_zero(self) -> bool {
        0 < self.next
    }

    pub fn new() -> (r: CellIds)
        ensures
            r@ == 1,
    {
        CellIds { next: 1 }
    }

    /// The next identity.
    fn mint(&mut self) -> (r: u64)
        requires
            old(self)@ < u64::MAX,
        ensures
            r == old(self)@,
            r != 0,
            final(self)@ == old(self)@ + 1,
    {
        proof {
            use_type_invariant(&*self);
        }
        let id: u64 = self.next;
        self.next = id + 1;
        id
    }
}

/// A cell's identity slot and the next identity to mint, after the cell asked
/// for its identity.
pub open spec fn minted(slot: u64, next: u64) -> (u64, u64) {
    if slot != 0 {
        (slot, next)
    } else {
        (next, (next + 1) as u64)
    }
}

/// A cell's identity, minting one if it has none. Identity rather than address
/// is what makes moving a deferred cell sound: the identity travels with it.
pub fn mint_id(slot: &mut u64, ids: &mut CellIds) -> (r: u64)
    requires
        old(ids)@ < u64::MAX,
    ensures
        r == *final(slot),
        (*final(slot), final(ids)@) == minted(*old(slot), old(ids)@),
        r != 0,
{
    if *slot == 0 {
        *slot = ids.mint();
    }
    *slot
}

/// The slots and the next identity after the cells `calls[..n]` asked for their
/// identities, one after the other.
pub open spec fn minted_upto(slots: Seq<u64>, next: u64, calls: Seq<int>, n: int) -> (
    Seq<u64>,
    u64,
)
    decreases n,
{
    if n <= 0 {
        (slots, next)
    } else {
        let (before, at) = minted_upto(slots, next, calls, n - 1);
        let i = calls[n - 1];
        let (id, after) = minted(before[i], at);
        (before.update(i, id), after)
    }
}

/// Whatever the order in which cells without an identity ask for theirs, and
/// however often: each gets one, keeps it, and shares it with no other.
pub proof fn identities_are_unique_and_kept(
    slots: Seq<u64>,
    next: u64,
    calls: Seq<int>,
    n: int,
    m: int,
)
    requires
        0 < next,
        0 <= n <= m <= calls.len(),
        next + m < u64::MAX,
        forall|i: int| 0 <= i < slots.len() ==> (#[trigger] slots[i]) == 0,
        forall|k: int| 0 <= k < calls.len() ==> 0 <= (#[trigger] calls[k]) < slots.len(),
    ensures
        ({
            let early = minted_upto(slots, next, calls, n).0;
            let (late, at) = minted_upto(slots, next, calls, m);
            &&& early.len() == slots.len() && late.len() == slots.len()
            &&& next <= at <= next + m
            &&& forall|k: int| 0 <= k < m ==> late[#[trigger] calls[k]] != 0
            &&& forall|i: int| 0 <= i < late.len() ==> (#[trigger] late[i]) < at
            &&& forall|i: int|
                0 <= i < late.len() && (#[trigger] early[i]) != 0 ==> late[i] == early[i]
            &&& forall|i: int, j: int|
                0 <= i < j < late.len() && #[trigger] late[i] != 0 && #[trigger] late[j] != 0
                    ==> late[i] != late[j]
        }),
    decreases m,
{
    if m > 0 {
        if n == m {
            identities_are_unique_and_kept(slots, next, calls, n - 1, m - 1);
        } else {
            identities_are_unique_and_kept(slots, next, calls, n, m - 1);
        }
    }
}

/// The causality of the last of the first `n` publications that cover `addr`:
/// a range published again supersedes the earlier declaration.
pub open spec fn publisher(published: Seq<PublishedRegion>, addr: u64, n: int) -> Option<VersionVec>
    decreases n,
{
    if n <= 0 {
        None
    } else if in_range(addr, published[n - 1].base, published[n - 1].len) {
        Some(published[n - 1].causality)
    } else {
        publisher(published, addr, n - 1)
    }
}

impl ExecModel {
    /// The execution with the deferred cell `id` registered, and its object.
    pub open spec fn registered(self, id: u64, init: u128) -> (ExecModel, usize) {
        if self.deferred.contains_key(id) {
            (self, self.deferred[id])
        } else {
            let object = self.objects.len() as usize;
            (
                ExecModel {
                    deferred: self.deferred.insert(id, object),
                    ..self.with_new_cell(StateModel::deferred(init, None))
                },
                object,
            )
        }
    }

    /// The execution with the cell at `addr` registered, and its object. A
    /// cell outside every published range has no identity.
    pub open spec fn materialized_at(self, addr: u64) -> Result<(ExecModel, usize), Fault> {
        if self.materialized.contains_key(addr) {
            Ok((self, self.materialized[addr]))
        } else {
            match publisher(self.published, addr, self.published.len() as int) {
                None => Err(Fault::NotPublished { addr }),
                Some(causality) => {
                    let object = self.objects.len() as usize;
                    Ok(
                        (
                            ExecModel {
                                materialized: self.materialized.insert(addr, object),
                                ..self.with_new_cell(StateModel::deferred(0, Some(causality)))
                            },
                            object,
                        ),
                    )
                },
            }
        }
    }

    /// The newest value read without synchronization.
    pub open spec fn unsync_loaded(self, object: int) -> Result<(ExecModel, u128), Fault> {
        match self.cell(object).tracked_unsync_load(self.threads) {
            Err(f) => Err(f),
            Ok(s) => Ok((self.with_cell(object, s), s.value())),
        }
    }

    /// The start of a mutable access: no other access may happen until its
    /// end.
    pub open spec fn mut_begun(self, object: int) -> Result<(ExecModel, u128), Fault> {
        match self.cell(object).tracked_unsync_mut(self.threads) {
            Err(f) => Err(f),
            Ok(s) => Ok(
                (self.with_cell(object, StateModel { is_mutating: true, ..s }), s.value()),
            ),
        }
    }

    /// The end of a mutable access that leaves `value` behind.
    pub open spec fn mut_ended(self, object: int, value: u128, unwinding: bool) -> Result<
        ExecModel,
        Fault,
    > {
        let s = StateModel { is_mutating: false, ..self.cell(object) }.overwritten(value);
        if unwinding {
            Ok(self.with_cell(object, s))
        } else {
            match s.tracked_unsync_mut(self.threads) {
                Err(f) => Err(f),
                Ok(n) => Ok(self.with_cell(object, n)),
            }
        }
    }
}

/// A new object keeps the execution valid.
pub proof fn lemma_new_object(e: ExecModel, c: Seq<Frozen>, o: ObjectModel)
    requires
        e.inv(c),
        o.wf(),
    ensures
        (ExecModel { objects: e.objects.push(o), ..e }).inv(c),
{
    let n = ExecModel { objects: e.objects.push(o), ..e };
    lemma_names_cells_same(e.deferred, e.objects, n.objects);
    lemma_names_cells_same(e.materialized, e.objects, n.objects);
    assert forall|i: int| 0 <= i < n.objects.len() implies (#[trigger] n.objects[i]).wf() by {
        if i < e.objects.len() {
            assert(e.objects[i].wf());
        }
    }
}

/// A cell replaced by a valid one keeps the execution valid.
pub proof fn lemma_cell_inv(e: ExecModel, c: Seq<Frozen>, object: int, cell: StateModel)
    requires
        e.inv(c),
        e.is_cell(object),
        cell.wf(),
    ensures
        e.with_cell(object, cell).inv(c),
{
    lemma_with_cell_inv(e, c, object, cell, e.path, e.threads);
    assert(e.with_cell(object, cell) =~= e.after_op(object, cell, e.path, e.threads));
}

impl Execution {
    /// An uninitialized cell, reusing the allocations of an earlier run.
    fn take_shell(&mut self) -> (r: State)
        ensures
            r@ == StateModel::blank(),
            final(self)@ == old(self)@,
    {
        if let Some(state) = self.spares.pop() {
            let mut state: State = state;
            if state.regions.len() > 0 {
                state.recycle();
                return state;
            }
        }
        State::shell()
    }

    /// Create a new atomic cell initialized with the provided value.
    pub fn new_atomic(&mut self, claims: &Claims, value: u128) -> (r: usize)
        requires
            old(self)@.running(claims@),
        ensures
            r == old(self)@.objects.len(),
            final(self)@ == old(self)@.with_new_cell(
                StateModel::created(old(self)@.threads, value),
            ),
            final(self)@.running(claims@),
            final(self)@.is_cell(r as int),
    {
        let mut state: State = self.take_shell();
        state.init(&self.threads, value);
        let object: usize = self.objects.len();
        proof {
            lemma_new_object(self@, claims@, ObjectModel::Atomic(state@));
        }
        self.objects.push(Object::Atomic(state));
        assert(self@.objects =~= old(self)@.with_new_cell(
            StateModel::created(old(self)@.threads, value),
        ).objects);
        object
    }

    /// Resolve, and on first access of this execution create, the registration
    /// of the cell with identity `id`, whose value before any store is `init`.
    pub fn register(&mut self, claims: &Claims, id: u64, init: u128) -> (r: usize)
        requires
            old(self)@.inv(claims@),
        ensures
            (final(self)@, r) == old(self)@.registered(id, init),
            final(self)@.inv(claims@),
            final(self)@.is_cell(r as int),
    {
        if let Some(object) = table_get(&self.deferred_atomics, id) {
            return object;
        }
        let mut state: State = self.take_shell();
        // Such a cell is in the binary image, not in memory a thread
        // published, so its genesis precedes the execution.
        state.init_deferred(init, None);
        let object: usize = self.objects.len();
        proof {
            lemma_new_object(self@, claims@, ObjectModel::Atomic(state@));
        }
        self.objects.push(Object::Atomic(state));
        table_insert(&mut self.deferred_atomics, id, object);
        assert(self@.objects =~= old(self)@.registered(id, init).0.objects);
        assert(self@ =~= old(self)@.registered(id, init).0);
        object
    }

    /// Resolve, and on first access of this execution create, the registration
    /// of the materialized cell at `addr`.
    pub fn resolve_materialized(&mut self, claims: &Claims, addr: u64) -> (r: Result<usize, Fault>)
        requires
            old(self)@.inv(claims@),
        ensures
            match old(self)@.materialized_at(addr) {
                Ok((e, object)) => {
                    &&& r == Ok::<usize, Fault>(object)
                    &&& final(self)@ == e
                    &&& e.inv(claims@)
                    &&& e.is_cell(object as int)
                },
                Err(f) => r == Err::<usize, Fault>(f) && final(self)@ == old(self)@,
            },
    {
        if let Some(object) = table_get(&self.materialized, addr) {
            return Ok(object);
        }
        let mut n: usize = self.published_regions.len();
        let mut published: Option<VersionVec> = None;
        while n > 0 && published.is_none()
            invariant
                self@ == old(self)@,
                n <= self@.published.len(),
                published is None ==> publisher(
                    self@.published,
                    addr,
                    self@.published.len() as int,
                ) == publisher(self@.published, addr, n as int),
                published is Some ==> publisher(
                    self@.published,
                    addr,
                    self@.published.len() as int,
                ) == published,
            decreases n,
        {
            let region: PublishedRegion = self.published_regions[n - 1];
            if is_in_range(addr, region.base, region.len) {
                published = Some(region.causality);
            }
            n = n - 1;
        }
        match published {
            None => Err(Fault::NotPublished { addr }),
            Some(causality) => {
                let mut state: State = self.take_shell();
                state.init_deferred(0, Some(causality));
                let object: usize = self.objects.len();
                proof {
                    lemma_new_object(self@, claims@, ObjectModel::Atomic(state@));
                }
                self.objects.push(Object::Atomic(state));
                table_insert(&mut self.materialized, addr, object);
                assert(self@.objects =~= old(self)@.materialized_at(addr)->Ok_0.0.objects);
                assert(self@ =~= old(self)@.materialized_at(addr)->Ok_0.0);
                Ok(object)
            },
        }
    }

    /// Read the composed newest value with no synchronization.
    pub fn unsync_load(&mut self, claims: &Claims, object: usize) -> (r: Result<u128, Fault>)
        requires
            old(self)@.running(claims@),
            old(self)@.is_cell(object as int),
        ensures
            match old(self)@.unsync_loaded(object as int) {
                Ok((e, value)) => {
                    &&& r == Ok::<u128, Fault>(value)
                    &&& final(self)@ == e
                    &&& e.running(claims@)
                },
                Err(f) => r == Err::<u128, Fault>(f),
            },
    {
        let ghost e0 = self@;
        assert(self.objects@[object as int]@ == e0.objects[object as int]);
        assert(e0.objects[object as int].wf());
        let mut value: u128 = 0;
        if let Object::Atomic(state) = &mut self.objects[object] {
            match state.track_unsync_load(&self.threads) {
                Ok(()) => {},
                Err(f) => {
                    return Err(f);
                },
            }
            value = state.newest_value();
        }
        proof {
            let e = e0.unsync_loaded(object as int)->Ok_0.0;
            lemma_cell_inv(e0, claims@, object as int, e.cell(object as int));
            assert(self@.objects =~= e.objects);
            assert(self@ =~= e);
        }
        Ok(value)
    }

    /// Start to access the newest value mutably. The access must happen after
    /// all stores.
    pub fn begin_mut(&mut self, claims: &Claims, object: usize) -> (r: Result<u128, Fault>)
        requires
            old(self)@.running(claims@),
            old(self)@.is_cell(object as int),
        ensures
            match old(self)@.mut_begun(object as int) {
                Ok((e, value)) => {
                    &&& r == Ok::<u128, Fault>(value)
                    &&& final(self)@ == e
                    &&& e.running(claims@)
                },
                Err(f) => r == Err::<u128, Fault>(f),
            },
    {
        let ghost e0 = self@;
        assert(self.objects@[object as int]@ == e0.objects[object as int]);
        assert(e0.objects[object as int].wf());
        let mut value: u128 = 0;
        if let Object::Atomic(state) = &mut self.objects[object] {
            match state.track_unsync_mut(&self.threads) {
                Ok(()) => {},
                Err(f) => {
                    return Err(f);
                },
            }
            state.is_mutating = true;
            value = state.newest_value();
        }
        proof {
            let e = e0.mut_begun(object as int)->Ok_0.0;
            lemma_cell_inv(e0, claims@, object as int, e.cell(object as int));
            assert(self@.objects =~= e.objects);
            assert(self@ =~= e);
        }
        Ok(value)
    }

    /// End a mutable access: the value is placed back into every region. The
    /// access is tracked once more, unless the thread is unwinding.
    pub fn end_mut(&mut self, claims: &Claims, object: usize, value: u128, unwinding: bool) -> (r:
        Result<(), Fault>)
        requires
            old(self)@.running(claims@),
            old(self)@.is_cell(object as int),
            old(self)@.cell(object as int).is_mutating,
        ensures
            match old(self)@.mut_ended(object as int, value, unwinding) {
                Ok(e) => {
                    &&& r is Ok
                    &&& final(self)@ == e
                    &&& e.running(claims@)
                },
                Err(f) => r == Err::<(), Fault>(f),
            },
    {
        let ghost e0 = self@;
        assert(self.objects@[object as int]@ == e0.objects[object as int]);
        assert(e0.objects[object as int].wf());
        if let Object::Atomic(state) = &mut self.objects[object] {
            state.is_mutating = false;
            state.overwrite(value);
            if !unwinding {
                match state.track_unsync_mut(&self.threads) {
                    Ok(()) => {},
                    Err(f) => {
                        return Err(f);
                    },
                }
            }
        }
        proof {
            let e = e0.mut_ended(object as int, value, unwinding)->Ok_0;
            lemma_cell_inv(e0, claims@, object as int, e.cell(object as int));
            assert(self@.objects =~= e.objects);
            assert(self@ =~= e);
        }
        Ok(())
    }
}

/// A cell keeps its registration for the whole execution, and a cell that is
/// not registered yet gets one of its own.
pub proof fn registrations_are_stable(e: ExecModel, id: u64, other: u64, init: u128)
    requires
        names_cells(e.deferred, e.objects),
        e.objects.len() <= usize::MAX,
    ensures
        ({
            let (n, object) = e.registered(id, init);
            &&& n.registered(id, init) == (n, object)
            &&& e.deferred.contains_key(other) ==> n.deferred.contains_key(other)
                && n.deferred[other] == e.deferred[other]
            &&& !e.deferred.contains_key(id) && e.deferred.contains_key(other)
                ==> n.deferred[other] != object
        }),
{
    if e.deferred.contains_key(other) {
        assert(e.deferred[other] < e.objects.len());
    }
}

} // verus!
