//! Typed atomics.
//!
//! Every operation is begun with [`Execution::begin`], which decides which
//! thread runs next; the functions here are what follows when the operation's
//! own thread runs.
use core::marker::PhantomData;
use vstd::prelude::*;

use crate::rt::atomic::action::FULL_MASK;
use crate::rt::atomic::state::StateModel;
use crate::rt::claims::Claims;
use crate::rt::execution::{ExecModel, Execution};
use crate::rt::fault::Fault;
use crate::rt::order::Order;
use crate::sync::atomic::lane::{Lane, LaneU32Of128, LaneU32Of64, LaneU64Of128};
use crate::sync::atomic::num::{Numeric, Update};

pub mod cell;
pub mod lane;
pub mod laws;
pub mod num;
pub mod update;

verus! {

/// An atomic integer of the code under test: the object of its cell.
#[derive(Debug)]
pub struct Atomic<T> {
    pub object: usize,
    pub kind: PhantomData<T>,
}

impl<T> Clone for Atomic<T> {
    fn clone(&self) -> (r: Atomic<T>)
        ensures
            r.object == self.object,
    {
        Atomic { object: self.object, kind: PhantomData }
    }
}

impl<T> Copy for Atomic<T> {

}

pub type AtomicU8 = Atomic<u8>;

pub type AtomicU16 = Atomic<u16>;

pub type AtomicU32 = Atomic<u32>;

pub type AtomicU64 = Atomic<u64>;

pub type AtomicUsize = Atomic<usize>;

pub type AtomicU128 = Atomic<u128>;

pub type AtomicI8 = Atomic<i8>;

pub type AtomicI16 = Atomic<i16>;

pub type AtomicI32 = Atomic<i32>;

pub type AtomicI64 = Atomic<i64>;

pub type AtomicIsize = Atomic<isize>;

pub type AtomicI128 = Atomic<i128>;

/// `old` with the bits under `mask` replaced by those of `new`.
pub open spec fn merged<T: Numeric>(old: T, new: T, mask: T) -> T {
    old.updated(Update::And, mask.updated(Update::Nand, mask)).updated(
        Update::Or,
        new.updated(Update::And, mask),
    )
}

/// `old` with the bits under `mask` replaced by those of `new`.
fn merge<T: Numeric>(old: T, new: T, mask: T) -> (r: T)
    ensures
        r == merged(old, new, mask),
{
    let kept: T = old.update(Update::And, mask.update(Update::Nand, mask));
    kept.update(Update::Or, new.update(Update::And, mask))
}

/// A typed load.
pub open spec fn loaded<T: Numeric>(
    e: ExecModel,
    object: int,
    mask: u128,
    order: Order,
    coherent: bool,
) -> Result<(ExecModel, T), Fault> {
    match e.loaded(object, mask, order, coherent) {
        Err(f) => Err(f),
        Ok((n, bits)) => Ok((n, T::of_bits(bits))),
    }
}

/// A typed read-modify-write that writes `next(old)` where there is one, and
/// is a load that reports the old value otherwise.
pub open spec fn exchanged<T: Numeric>(
    e: ExecModel,
    object: int,
    read_mask: u128,
    write_mask: u128,
    success: Order,
    failure: Order,
    next: spec_fn(T) -> Option<T>,
) -> Result<(ExecModel, Result<T, T>), Fault> {
    match e.rmw_begun(object, read_mask, write_mask, success, failure) {
        Err(f) => Err(f),
        Ok(half) => {
            let old = T::of_bits(half.value);
            match next(old) {
                None => Ok((e.rmw_undone(object, half, failure), Err(old))),
                Some(new) => match e.rmw_done(object, half, new.to_bits(), write_mask, success) {
                    Err(f) => Err(f),
                    Ok(n) => Ok((n, Ok(old))),
                },
            }
        },
    }
}

/// What a compare-exchange writes.
pub open spec fn if_equal<T: Numeric>(current: T, new: T) -> spec_fn(T) -> Option<T> {
    |old: T|
        if old == current {
            Some(new)
        } else {
            None
        }
}

/// What a compare-exchange of the bits under `mask` writes.
pub open spec fn if_equal_under<T: Numeric>(mask: T, current: T, new: T) -> spec_fn(T) -> Option<
    T,
> {
    |old: T|
        if old.updated(Update::And, mask) == current.updated(Update::And, mask) {
            Some(merged(old, new, mask))
        } else {
            None
        }
}

/// What a compare-exchange that carries the bits under `keep` writes.
pub open spec fn if_equal_keeping<T: Numeric>(keep: T, current: T, new: T) -> spec_fn(
    T,
) -> Option<T> {
    |old: T|
        if old == current {
            Some(merged(new, old, keep))
        } else {
            None
        }
}

/// A typed read-modify-write that always writes.
pub open spec fn fetched<T: Numeric>(
    e: ExecModel,
    object: int,
    order: Order,
    update: Update,
    val: T,
) -> Result<(ExecModel, T), Fault> {
    match exchanged(
        e,
        object,
        FULL_MASK,
        FULL_MASK,
        order,
        order,
        |old: T| Some(old.updated(update, val)),
    ) {
        Err(f) => Err(f),
        Ok((n, Ok(old))) => Ok((n, old)),
        Ok((n, Err(old))) => Ok((n, old)),
    }
}

/// The failure ordering that `compare_and_swap` pairs with its ordering.
pub open spec fn cas_failure(order: Order) -> Order {
    match order {
        Order::Relaxed | Order::Release => Order::Relaxed,
        Order::Acquire | Order::AcqRel => Order::Acquire,
        Order::SeqCst => Order::SeqCst,
    }
}

fn cas_failure_order(order: Order) -> (r: Order)
    ensures
        r == cas_failure(order),
{
    match order {
        Order::Relaxed | Order::Release => Order::Relaxed,
        Order::Acquire | Order::AcqRel => Order::Acquire,
        Order::SeqCst => Order::SeqCst,
    }
}

impl<T: Numeric> Atomic<T> {
    /// The atomic whose cell is registered as `object`.
    pub fn at(object: usize) -> (r: Atomic<T>)
        ensures
            r.object == object,
    {
        Atomic { object, kind: PhantomData }
    }

    /// Creates a new atomic.
    pub fn new(execution: &mut Execution, claims: &Claims, value: T) -> (r: Atomic<T>)
        requires
            old(execution)@.running(claims@),
        ensures
            r.object == old(execution)@.objects.len(),
            final(execution)@ == old(execution)@.with_new_cell(
                StateModel::created(old(execution)@.threads, value.to_bits()),
            ),
            final(execution)@.running(claims@),
            final(execution)@.is_cell(r.object as int),
    {
        let object: usize = execution.new_atomic(claims, value.into_u128());
        Atomic::at(object)
    }

    /// Loads a value from the atomic.
    pub fn load(&self, execution: &mut Execution, claims: &Claims, order: Order) -> (r: Result<
        T,
        Fault,
    >)
        requires
            old(execution)@.running(claims@),
            old(execution)@.is_cell(self.object as int),
        ensures
            match loaded::<T>(old(execution)@, self.object as int, FULL_MASK, order, false) {
                Ok((e, v)) => r == Ok::<T, Fault>(v) && final(execution)@ == e && e.running(claims@),
                Err(f) => r == Err::<T, Fault>(f),
            },
    {
        match execution.load(claims, self.object, FULL_MASK, order, false) {
            Ok(bits) => Ok(T::from_u128(bits)),
            Err(f) => Err(f),
        }
    }

    /// Sub-word load: reads only the bits under `mask` (other bits zero). The
    /// masked lane is independently coherent, so this may return a stale lane
    /// value while another lane is seen fresh. A load spanning more than one
    /// region still returns a single consistent snapshot.
    pub fn load_masked(
        &self,
        execution: &mut Execution,
        claims: &Claims,
        mask: T,
        order: Order,
    ) -> (r: Result<T, Fault>)
        requires
            old(execution)@.running(claims@),
            old(execution)@.is_cell(self.object as int),
        ensures
            match loaded::<T>(old(execution)@, self.object as int, mask.to_bits(), order, false) {
                Ok((e, v)) => r == Ok::<T, Fault>(v) && final(execution)@ == e && e.running(claims@),
                Err(f) => r == Err::<T, Fault>(f),
            },
    {
        match execution.load(claims, self.object, mask.into_u128(), order, false) {
            Ok(bits) => Ok(T::from_u128(bits)),
            Err(f) => Err(f),
        }
    }

    /// Whole-cell-coherent lane load: reads only the bits under `mask`, as a
    /// projection coherent with the whole single-copy-atomic cell.
    pub fn load_coherent_lane(
        &self,
        execution: &mut Execution,
        claims: &Claims,
        mask: T,
        order: Order,
    ) -> (r: Result<T, Fault>)
        requires
            old(execution)@.running(claims@),
            old(execution)@.is_cell(self.object as int),
        ensures
            match loaded::<T>(old(execution)@, self.object as int, mask.to_bits(), order, true) {
                Ok((e, v)) => r == Ok::<T, Fault>(v) && final(execution)@ == e && e.running(claims@),
                Err(f) => r == Err::<T, Fault>(f),
            },
    {
        match execution.load(claims, self.object, mask.into_u128(), order, true) {
            Ok(bits) => Ok(T::from_u128(bits)),
            Err(f) => Err(f),
        }
    }

    /// Stores a value into the atomic.
    pub fn store(&self, execution: &mut Execution, claims: &Claims, value: T, order: Order) -> (r:
        Result<(), Fault>)
        requires
            old(execution)@.running(claims@),
            old(execution)@.is_cell(self.object as int),
        ensures
            match old(execution)@.stored(self.object as int, FULL_MASK, value.to_bits(), order) {
                Ok(e) => r is Ok && final(execution)@ == e && e.running(claims@),
                Err(f) => r == Err::<(), Fault>(f),
            },
    {
        execution.store(claims, self.object, FULL_MASK, value.into_u128(), order)
    }

    /// Sub-word store: writes only the bits under `mask`, leaving the rest of
    /// the cell untouched.
    pub fn store_masked(
        &self,
        execution: &mut Execution,
        claims: &Claims,
        mask: T,
        value: T,
        order: Order,
    ) -> (r: Result<(), Fault>)
        requires
            old(execution)@.running(claims@),
            old(execution)@.is_cell(self.object as int),
        ensures
            match old(execution)@.stored(
                self.object as int,
                mask.to_bits(),
                value.to_bits(),
                order,
            ) {
                Ok(e) => r is Ok && final(execution)@ == e && e.running(claims@),
                Err(f) => r == Err::<(), Fault>(f),
            },
    {
        execution.store(claims, self.object, mask.into_u128(), value.into_u128(), order)
    }

    /// Load the value without any synchronization.
    pub fn unsync_load(&self, execution: &mut Execution, claims: &Claims) -> (r: Result<T, Fault>)
        requires
            old(execution)@.running(claims@),
            old(execution)@.is_cell(self.object as int),
        ensures
            match old(execution)@.unsync_loaded(self.object as int) {
                Ok((e, bits)) => r == Ok::<T, Fault>(T::of_bits(bits)) && final(execution)@ == e
                    && e.running(claims@),
                Err(f) => r == Err::<T, Fault>(f),
            },
    {
        match execution.unsync_load(claims, self.object) {
            Ok(bits) => Ok(T::from_u128(bits)),
            Err(f) => Err(f),
        }
    }

    /// Consumes the atomic and returns the contained value.
    pub fn into_inner(self, execution: &mut Execution, claims: &Claims) -> (r: Result<T, Fault>)
        requires
            old(execution)@.running(claims@),
            old(execution)@.is_cell(self.object as int),
        ensures
            match old(execution)@.unsync_loaded(self.object as int) {
                Ok((e, bits)) => r == Ok::<T, Fault>(T::of_bits(bits)) && final(execution)@ == e
                    && e.running(claims@),
                Err(f) => r == Err::<T, Fault>(f),
            },
    {
        self.unsync_load(execution, claims)
    }

    /// Begins a mutable access: the value to mutate. It ends with
    /// [`Atomic::end_mut`].
    pub fn begin_mut(&self, execution: &mut Execution, claims: &Claims) -> (r: Result<T, Fault>)
        requires
            old(execution)@.running(claims@),
            old(execution)@.is_cell(self.object as int),
        ensures
            match old(execution)@.mut_begun(self.object as int) {
                Ok((e, bits)) => r == Ok::<T, Fault>(T::of_bits(bits)) && final(execution)@ == e
                    && e.running(claims@),
                Err(f) => r == Err::<T, Fault>(f),
            },
    {
        match execution.begin_mut(claims, self.object) {
            Ok(bits) => Ok(T::from_u128(bits)),
            Err(f) => Err(f),
        }
    }

    /// Ends a mutable access that leaves `value` behind.
    pub fn end_mut(
        &self,
        execution: &mut Execution,
        claims: &Claims,
        value: T,
        unwinding: bool,
    ) -> (r: Result<(), Fault>)
        requires
            old(execution)@.running(claims@),
            old(execution)@.is_cell(self.object as int),
            old(execution)@.cell(self.object as int).is_mutating,
        ensures
            match old(execution)@.mut_ended(self.object as int, value.to_bits(), unwinding) {
                Ok(e) => r is Ok && final(execution)@ == e && e.running(claims@),
                Err(f) => r == Err::<(), Fault>(f),
            },
    {
        execution.end_mut(claims, self.object, value.into_u128(), unwinding)
    }

    /// Read-modify-write with a function that gives the new value, or none:
    /// one modelled step.
    fn exchange<F: FnOnce(T) -> Option<T>>(
        &self,
        execution: &mut Execution,
        claims: &Claims,
        read_mask: u128,
        write_mask: u128,
        success: Order,
        failure: Order,
        f: F,
        Ghost(next): Ghost<spec_fn(T) -> Option<T>>,
    ) -> (r: Result<Result<T, T>, Fault>)
        requires
            old(execution)@.running(claims@),
            old(execution)@.is_cell(self.object as int),
            forall|x: T| #[trigger] f.requires((x,)),
            forall|x: T, y: Option<T>| #[trigger] f.ensures((x,), y) ==> y == next(x),
        ensures
            match exchanged(
                old(execution)@,
                self.object as int,
                read_mask,
                write_mask,
                success,
                failure,
                next,
            ) {
                Ok((e, v)) => r == Ok::<Result<T, T>, Fault>(v) && final(execution)@ == e
                    && e.running(claims@),
                Err(g) => r == Err::<Result<T, T>, Fault>(g),
            },
    {
        let apply = |bits: u128| -> (out: Result<u128, T>)
            ensures
                match next(T::of_bits(bits)) {
                    Some(new) => out == Ok::<u128, T>(new.to_bits()),
                    None => out == Err::<u128, T>(T::of_bits(bits)),
                },
            {
                let old: T = T::from_u128(bits);
                match f(old) {
                    Some(new) => Ok(new.into_u128()),
                    None => Err(old),
                }
            };
        match execution.rmw_preserving(
            claims,
            self.object,
            read_mask,
            write_mask,
            success,
            failure,
            apply,
        ) {
            Ok(Ok(bits)) => Ok(Ok(T::from_u128(bits))),
            Ok(Err(old)) => Ok(Err(old)),
            Err(g) => Err(g),
        }
    }

    /// Applies an update, returning the previous value.
    fn fetch(
        &self,
        execution: &mut Execution,
        claims: &Claims,
        order: Order,
        update: Update,
        val: T,
    ) -> (r: Result<T, Fault>)
        requires
            old(execution)@.running(claims@),
            old(execution)@.is_cell(self.object as int),
        ensures
            match fetched(old(execution)@, self.object as int, order, update, val) {
                Ok((e, v)) => r == Ok::<T, Fault>(v) && final(execution)@ == e && e.running(claims@),
                Err(f) => r == Err::<T, Fault>(f),
            },
    {
        let ghost next = |old: T| Some(old.updated(update, val));
        let f = |old: T| -> (out: Option<T>)
            ensures
                out == Some(old.updated(update, val)),
            { Some(old.update(update, val)) };
        match self.exchange(
            execution,
            claims,
            FULL_MASK,
            FULL_MASK,
            order,
            order,
            f,
            Ghost(next),
        ) {
            Ok(Ok(v)) => Ok(v),
            Ok(Err(v)) => Ok(v),
            Err(g) => Err(g),
        }
    }

    /// Stores a value into the atomic if the current value is the same as the
    /// `current` value.
    pub fn compare_exchange(
        &self,
        execution: &mut Execution,
        claims: &Claims,
        current: T,
        new: T,
        success: Order,
        failure: Order,
    ) -> (r: Result<Result<T, T>, Fault>)
        requires
            old(execution)@.running(claims@),
            old(execution)@.is_cell(self.object as int),
        ensures
            match exchanged(
                old(execution)@,
                self.object as int,
                FULL_MASK,
                FULL_MASK,
                success,
                failure,
                if_equal(current, new),
            ) {
                Ok((e, v)) => r == Ok::<Result<T, T>, Fault>(v) && final(execution)@ == e
                    && e.running(claims@),
                Err(g) => r == Err::<Result<T, T>, Fault>(g),
            },
    {
        let f = |old: T| -> (out: Option<T>)
            ensures
                out == if_equal(current, new)(old),
            {
                if old.is(current) {
                    Some(new)
                } else {
                    None
                }
            };
        self.exchange(
            execution,
            claims,
            FULL_MASK,
            FULL_MASK,
            success,
            failure,
            f,
            Ghost(if_equal(current, new)),
        )
    }

    /// [`Atomic::compare_exchange`]: the weak form is modelled as the strong
    /// one.
    pub fn compare_exchange_weak(
        &self,
        execution: &mut Execution,
        claims: &Claims,
        current: T,
        new: T,
        success: Order,
        failure: Order,
    ) -> (r: Result<Result<T, T>, Fault>)
        requires
            old(execution)@.running(claims@),
            old(execution)@.is_cell(self.object as int),
        ensures
            match exchanged(
                old(execution)@,
                self.object as int,
                FULL_MASK,
                FULL_MASK,
                success,
                failure,
                if_equal(current, new),
            ) {
                Ok((e, v)) => r == Ok::<Result<T, T>, Fault>(v) && final(execution)@ == e
                    && e.running(claims@),
                Err(g) => r == Err::<Result<T, T>, Fault>(g),
            },
    {
        self.compare_exchange(execution, claims, current, new, success, failure)
    }

    /// Stores a value into the atomic if the current value is the same as the
    /// `current` value, returning the previous value.
    pub fn compare_and_swap(
        &self,
        execution: &mut Execution,
        claims: &Claims,
        current: T,
        new: T,
        order: Order,
    ) -> (r: Result<T, Fault>)
        requires
            old(execution)@.running(claims@),
            old(execution)@.is_cell(self.object as int),
        ensures
            match exchanged(
                old(execution)@,
                self.object as int,
                FULL_MASK,
                FULL_MASK,
                order,
                cas_failure(order),
                if_equal(current, new),
            ) {
                Ok((e, v)) => {
                    &&& r == Ok::<T, Fault>(
                        match v {
                            Ok(old) => old,
                            Err(old) => old,
                        },
                    )
                    &&& final(execution)@ == e
                    &&& e.running(claims@)
                },
                Err(g) => r == Err::<T, Fault>(g),
            },
    {
        match self.compare_exchange(
            execution,
            claims,
            current,
            new,
            order,
            cas_failure_order(order),
        ) {
            Ok(Ok(v)) => Ok(v),
            Ok(Err(v)) => Ok(v),
            Err(g) => Err(g),
        }
    }

    /// Masked compare-exchange as **one** modelled atomic step: the compare
    /// consults only the bits under `mask`, and on success exactly those bits
    /// are replaced by `new`'s.
    pub fn compare_exchange_masked(
        &self,
        execution: &mut Execution,
        claims: &Claims,
        mask: T,
        current: T,
        new: T,
        success: Order,
        failure: Order,
    ) -> (r: Result<Result<T, T>, Fault>)
        requires
            old(execution)@.running(claims@),
            old(execution)@.is_cell(self.object as int),
        ensures
            match exchanged(
                old(execution)@,
                self.object as int,
                mask.to_bits(),
                mask.to_bits(),
                success,
                failure,
                if_equal_under(mask, current, new),
            ) {
                Ok((e, v)) => r == Ok::<Result<T, T>, Fault>(v) && final(execution)@ == e
                    && e.running(claims@),
                Err(g) => r == Err::<Result<T, T>, Fault>(g),
            },
    {
        let f = |old: T| -> (out: Option<T>)
            ensures
                out == if_equal_under(mask, current, new)(old),
            {
                if old.update(Update::And, mask).is(current.update(Update::And, mask)) {
                    Some(merge(old, new, mask))
                } else {
                    None
                }
            };
        let bits: u128 = mask.into_u128();
        self.exchange(
            execution,
            claims,
            bits,
            bits,
            success,
            failure,
            f,
            Ghost(if_equal_under(mask, current, new)),
        )
    }

    /// Full-width compare-exchange that carries the bits under `keep`: the
    /// compare consults the whole value, and on success every bit outside
    /// `keep` is replaced by `new`'s. On the kept bits no store is appended.
    pub fn compare_exchange_preserving(
        &self,
        execution: &mut Execution,
        claims: &Claims,
        keep: T,
        current: T,
        new: T,
        success: Order,
        failure: Order,
    ) -> (r: Result<Result<T, T>, Fault>)
        requires
            old(execution)@.running(claims@),
            old(execution)@.is_cell(self.object as int),
        ensures
            match exchanged(
                old(execution)@,
                self.object as int,
                FULL_MASK,
                !keep.to_bits(),
                success,
                failure,
                if_equal_keeping(keep, current, new),
            ) {
                Ok((e, v)) => r == Ok::<Result<T, T>, Fault>(v) && final(execution)@ == e
                    && e.running(claims@),
                Err(g) => r == Err::<Result<T, T>, Fault>(g),
            },
    {
        let f = |old: T| -> (out: Option<T>)
            ensures
                out == if_equal_keeping(keep, current, new)(old),
            {
                if old.is(current) {
                    Some(merge(new, old, keep))
                } else {
                    None
                }
            };
        self.exchange(
            execution,
            claims,
            FULL_MASK,
            !keep.into_u128(),
            success,
            failure,
            f,
            Ghost(if_equal_keeping(keep, current, new)),
        )
    }

    /// Read-modify-write of the bits under `read_mask` with a function, of
    /// which only those also under `write_mask` may change.
    fn modify<F: FnOnce(T) -> T>(
        &self,
        execution: &mut Execution,
        claims: &Claims,
        read_mask: u128,
        write_mask: u128,
        f: F,
        order: Order,
    ) -> (r: Result<T, Fault>)
        requires
            old(execution)@.running(claims@),
            old(execution)@.is_cell(self.object as int),
            forall|x: T| #[trigger] f.requires((x,)),
        ensures
            match old(execution)@.rmw_begun(
                self.object as int,
                read_mask,
                write_mask,
                order,
                order,
            ) {
                Err(g) => r == Err::<T, Fault>(g),
                Ok(half) => exists|next: T|
                    {
                        &&& #[trigger] f.ensures((T::of_bits(half.value),), next)
                        &&& match old(execution)@.rmw_done(
                            self.object as int,
                            half,
                            next.to_bits(),
                            write_mask,
                            order,
                        ) {
                            Err(g) => r == Err::<T, Fault>(g),
                            Ok(e) => {
                                &&& r == Ok::<T, Fault>(T::of_bits(half.value))
                                &&& final(execution)@ == e
                                &&& e.running(claims@)
                            },
                        }
                    },
            },
    {
        let apply = |bits: u128| -> (out: Result<u128, ()>)
            ensures
                exists|next: T| #[trigger]
                    f.ensures((T::of_bits(bits),), next) && out == Ok::<u128, ()>(next.to_bits()),
            {
                let next: T = f(T::from_u128(bits));
                Ok(next.into_u128())
            };
        match execution.rmw_preserving(
            claims,
            self.object,
            read_mask,
            write_mask,
            order,
            order,
            apply,
        ) {
            Ok(Ok(bits)) => Ok(T::from_u128(bits)),
            Ok(Err(_)) => {
                assert(false);
                Err(Fault::Corrupted)
            },
            Err(g) => Err(g),
        }
    }

    /// Single-step read-modify-write over only the bits under `mask`,
    /// returning the previous value of those bits (other bits zero).
    ///
    /// The masked lane is independently coherent from the rest of the cell.
    /// `f` receives the current value (only the masked bits meaningful); its
    /// result's masked bits are written.
    pub fn fetch_modify<F: FnOnce(T) -> T>(
        &self,
        execution: &mut Execution,
        claims: &Claims,
        mask: T,
        f: F,
        order: Order,
    ) -> (r: Result<T, Fault>)
        requires
            old(execution)@.running(claims@),
            old(execution)@.is_cell(self.object as int),
            forall|x: T| #[trigger] f.requires((x,)),
        ensures
            match old(execution)@.rmw_begun(
                self.object as int,
                mask.to_bits(),
                mask.to_bits(),
                order,
                order,
            ) {
                Err(g) => r == Err::<T, Fault>(g),
                Ok(half) => exists|next: T|
                    {
                        &&& #[trigger] f.ensures((T::of_bits(half.value),), next)
                        &&& match old(execution)@.rmw_done(
                            self.object as int,
                            half,
                            next.to_bits(),
                            mask.to_bits(),
                            order,
                        ) {
                            Err(g) => r == Err::<T, Fault>(g),
                            Ok(e) => {
                                &&& r == Ok::<T, Fault>(T::of_bits(half.value))
                                &&& final(execution)@ == e
                                &&& e.running(claims@)
                            },
                        }
                    },
            },
    {
        let bits: u128 = mask.into_u128();
        self.modify(execution, claims, bits, bits, f, order)
    }

    /// Single-step read-modify-write that consults the whole value and
    /// changes only the bits under `write_mask`. That `f` hands the others
    /// back as they were is checked.
    pub fn fetch_modify_preserving<F: FnOnce(T) -> T>(
        &self,
        execution: &mut Execution,
        claims: &Claims,
        write_mask: T,
        f: F,
        order: Order,
    ) -> (r: Result<T, Fault>)
        requires
            old(execution)@.running(claims@),
            old(execution)@.is_cell(self.object as int),
            forall|x: T| #[trigger] f.requires((x,)),
        ensures
            match old(execution)@.rmw_begun(
                self.object as int,
                FULL_MASK,
                write_mask.to_bits(),
                order,
                order,
            ) {
                Err(g) => r == Err::<T, Fault>(g),
                Ok(half) => exists|next: T|
                    {
                        &&& #[trigger] f.ensures((T::of_bits(half.value),), next)
                        &&& match old(execution)@.rmw_done(
                            self.object as int,
                            half,
                            next.to_bits(),
                            write_mask.to_bits(),
                            order,
                        ) {
                            Err(g) => r == Err::<T, Fault>(g),
                            Ok(e) => {
                                &&& r == Ok::<T, Fault>(T::of_bits(half.value))
                                &&& final(execution)@ == e
                                &&& e.running(claims@)
                            },
                        }
                    },
            },
    {
        self.modify(execution, claims, FULL_MASK, write_mask.into_u128(), f, order)
    }

    /// Stores a value into the atomic, returning the previous value.
    pub fn swap(&self, execution: &mut Execution, claims: &Claims, val: T, order: Order) -> (r:
        Result<T, Fault>)
        requires
            old(execution)@.running(claims@),
            old(execution)@.is_cell(self.object as int),
        ensures
            match fetched(old(execution)@, self.object as int, order, Update::Swap, val) {
                Ok((e, v)) => r == Ok::<T, Fault>(v) && final(execution)@ == e && e.running(claims@),
                Err(f) => r == Err::<T, Fault>(f),
            },
    {
        self.fetch(execution, claims, order, Update::Swap, val)
    }

    /// Adds to the current value (wrapping), returning the previous value.
    pub fn fetch_add(&self, execution: &mut Execution, claims: &Claims, val: T, order: Order) -> (r:
        Result<T, Fault>)
        requires
            old(execution)@.running(claims@),
            old(execution)@.is_cell(self.object as int),
        ensures
            match fetched(old(execution)@, self.object as int, order, Update::Add, val) {
                Ok((e, v)) => r == Ok::<T, Fault>(v) && final(execution)@ == e && e.running(claims@),
                Err(f) => r == Err::<T, Fault>(f),
            },
    {
        self.fetch(execution, claims, order, Update::Add, val)
    }

    /// Subtracts from the current value (wrapping), returning the previous
    /// value.
    pub fn fetch_sub(&self, execution: &mut Execution, claims: &Claims, val: T, order: Order) -> (r:
        Result<T, Fault>)
        requires
            old(execution)@.running(claims@),
            old(execution)@.is_cell(self.object as int),
        ensures
            match fetched(old(execution)@, self.object as int, order, Update::Sub, val) {
                Ok((e, v)) => r == Ok::<T, Fault>(v) && final(execution)@ == e && e.running(claims@),
                Err(f) => r == Err::<T, Fault>(f),
            },
    {
        self.fetch(execution, claims, order, Update::Sub, val)
    }

    /// Bitwise "and" with the current value, returning the previous value.
    pub fn fetch_and(&self, execution: &mut Execution, claims: &Claims, val: T, order: Order) -> (r:
        Result<T, Fault>)
        requires
            old(execution)@.running(claims@),
            old(execution)@.is_cell(self.object as int),
        ensures
            match fetched(old(execution)@, self.object as int, order, Update::And, val) {
                Ok((e, v)) => r == Ok::<T, Fault>(v) && final(execution)@ == e && e.running(claims@),
                Err(f) => r == Err::<T, Fault>(f),
            },
    {
        self.fetch(execution, claims, order, Update::And, val)
    }

    /// Bitwise "nand" with the current value, returning the previous value.
    pub fn fetch_nand(&self, execution: &mut Execution, claims: &Claims, val: T, order: Order) -> (r:
        Result<T, Fault>)
        requires
            old(execution)@.running(claims@),
            old(execution)@.is_cell(self.object as int),
        ensures
            match fetched(old(execution)@, self.object as int, order, Update::Nand, val) {
                Ok((e, v)) => r == Ok::<T, Fault>(v) && final(execution)@ == e && e.running(claims@),
                Err(f) => r == Err::<T, Fault>(f),
            },
    {
        self.fetch(execution, claims, order, Update::Nand, val)
    }

    /// Bitwise "or" with the current value, returning the previous value.
    pub fn fetch_or(&self, execution: &mut Execution, claims: &Claims, val: T, order: Order) -> (r:
        Result<T, Fault>)
        requires
            old(execution)@.running(claims@),
            old(execution)@.is_cell(self.object as int),
        ensures
            match fetched(old(execution)@, self.object as int, order, Update::Or, val) {
                Ok((e, v)) => r == Ok::<T, Fault>(v) && final(execution)@ == e && e.running(claims@),
                Err(f) => r == Err::<T, Fault>(f),
            },
    {
        self.fetch(execution, claims, order, Update::Or, val)
    }

    /// Bitwise "xor" with the current value, returning the previous value.
    pub fn fetch_xor(&self, execution: &mut Execution, claims: &Claims, val: T, order: Order) -> (r:
        Result<T, Fault>)
        requires
            old(execution)@.running(claims@),
            old(execution)@.is_cell(self.object as int),
        ensures
            match fetched(old(execution)@, self.object as int, order, Update::Xor, val) {
                Ok((e, v)) => r == Ok::<T, Fault>(v) && final(execution)@ == e && e.running(claims@),
                Err(f) => r == Err::<T, Fault>(f),
            },
    {
        self.fetch(execution, claims, order, Update::Xor, val)
    }

    /// Stores the maximum of the current and the given value, returning the
    /// previous value.
    pub fn fetch_max(&self, execution: &mut Execution, claims: &Claims, val: T, order: Order) -> (r:
        Result<T, Fault>)
        requires
            old(execution)@.running(claims@),
            old(execution)@.is_cell(self.object as int),
        ensures
            match fetched(old(execution)@, self.object as int, order, Update::Max, val) {
                Ok((e, v)) => r == Ok::<T, Fault>(v) && final(execution)@ == e && e.running(claims@),
                Err(f) => r == Err::<T, Fault>(f),
            },
    {
        self.fetch(execution, claims, order, Update::Max, val)
    }

    /// Stores the minimum of the current and the given value, returning the
    /// previous value.
    pub fn fetch_min(&self, execution: &mut Execution, claims: &Claims, val: T, order: Order) -> (r:
        Result<T, Fault>)
        requires
            old(execution)@.running(claims@),
            old(execution)@.is_cell(self.object as int),
        ensures
            match fetched(old(execution)@, self.object as int, order, Update::Min, val) {
                Ok((e, v)) => r == Ok::<T, Fault>(v) && final(execution)@ == e && e.running(claims@),
                Err(f) => r == Err::<T, Fault>(f),
            },
    {
        self.fetch(execution, claims, order, Update::Min, val)
    }
}

impl AtomicU64 {
    /// An aligned 32-bit lane view at `byte_offset` (0 or 4).
    pub fn lane_u32(&self, byte_offset: usize) -> (r: LaneU32Of64)
        requires
            Lane::<u32, 8>::aligned(byte_offset),
        ensures
            r.object == self.object,
            r.shift == byte_offset * 8,
            r.fits(),
    {
        Lane::new(self.object, byte_offset)
    }
}

impl AtomicU128 {
    /// An aligned 32-bit lane view at `byte_offset` (0, 4, 8, or 12).
    pub fn lane_u32(&self, byte_offset: usize) -> (r: LaneU32Of128)
        requires
            Lane::<u32, 16>::aligned(byte_offset),
        ensures
            r.object == self.object,
            r.shift == byte_offset * 8,
            r.fits(),
    {
        Lane::new(self.object, byte_offset)
    }

    /// An aligned 64-bit lane view at `byte_offset` (0 or 8).
    pub fn lane_u64(&self, byte_offset: usize) -> (r: LaneU64Of128)
        requires
            Lane::<u64, 16>::aligned(byte_offset),
        ensures
            r.object == self.object,
            r.shift == byte_offset * 8,
            r.fits(),
    {
        Lane::new(self.object, byte_offset)
    }
}

} // verus!
