//! What the typed operations do to the integer that an atomic holds.
use vstd::prelude::*;

use crate::rt::atomic::action::FULL_MASK;
use crate::rt::claims::Frozen;
use crate::rt::execution::ExecModel;
use crate::rt::order::Order;
use crate::rt::values::{a_rmw_writes_its_bits_alone, a_store_writes_its_bits_alone};
use crate::sync::atomic::num::{bit, congruent, Numeric, Update};
use crate::sync::atomic::{
    cas_failure, exchanged, fetched, if_equal, if_equal_keeping, if_equal_under, merged,
};

verus! {

/// The integer that was last written to the cell.
pub open spec fn held<T: Numeric>(e: ExecModel, object: int) -> T {
    T::of_bits(e.cell(object).value())
}

proof fn lemma_full(v: u128, next: u128)
    by (bit_vector)
    ensures
        (v & !0xffff_ffff_ffff_ffff_ffff_ffff_ffff_ffffu128) | (next
            & 0xffff_ffff_ffff_ffff_ffff_ffff_ffff_ffffu128) == next,
{
}

/// What is stored is what the atomic then holds.
pub proof fn a_store_is_held<T: Numeric>(
    e: ExecModel,
    c: Seq<Frozen>,
    object: int,
    value: T,
    order: Order,
)
    requires
        e.running(c),
        e.is_cell(object),
    ensures
        e.stored(object, FULL_MASK, value.to_bits(), order) matches Ok(n) ==> held::<T>(
            n,
            object,
        ) == value,
{
    assert(e.objects[object].wf());
    a_store_writes_its_bits_alone(e, object, FULL_MASK, value.to_bits(), order);
    lemma_full(e.cell(object).value(), value.to_bits());
    value.round_trip();
}

proof fn lemma_exchanged<T: Numeric>(
    e: ExecModel,
    c: Seq<Frozen>,
    object: int,
    success: Order,
    failure: Order,
    next: spec_fn(T) -> Option<T>,
)
    requires
        e.running(c),
        e.is_cell(object),
        e.cell(object).partitioned(FULL_MASK).partitioned(FULL_MASK).regions.len() <= usize::MAX,
    ensures
        exchanged(e, object, FULL_MASK, FULL_MASK, success, failure, next) matches Ok((n, r))
            ==> match r {
            Ok(old) => next(old) matches Some(new) && held::<T>(n, object) == new,
            Err(old) => next(old) is None && n.cell(object).value() == e.cell(object).value(),
        },
{
    if let Ok((n, r)) = exchanged(e, object, FULL_MASK, FULL_MASK, success, failure, next) {
        let half = e.rmw_begun(object, FULL_MASK, FULL_MASK, success, failure)->Ok_0;
        let old = T::of_bits(half.value);
        let new = match next(old) {
            Some(new) => new,
            None => old,
        };
        assert(e.objects[object].wf());
        a_rmw_writes_its_bits_alone(
            e,
            object,
            FULL_MASK,
            FULL_MASK,
            success,
            failure,
            new.to_bits(),
        );
        lemma_full(e.cell(object).value(), new.to_bits());
        new.round_trip();
    }
}

/// A compare-exchange replaces the value where it is the expected one, and
/// only there. Either way it returns the value that it found.
pub proof fn a_compare_exchange_replaces_what_it_expects<T: Numeric>(
    e: ExecModel,
    c: Seq<Frozen>,
    object: int,
    current: T,
    new: T,
    success: Order,
    failure: Order,
)
    requires
        e.running(c),
        e.is_cell(object),
        e.cell(object).partitioned(FULL_MASK).partitioned(FULL_MASK).regions.len() <= usize::MAX,
    ensures
        exchanged(
            e,
            object,
            FULL_MASK,
            FULL_MASK,
            success,
            failure,
            if_equal(current, new),
        ) matches Ok((n, r)) ==> match r {
            Ok(old) => old == current && held::<T>(n, object) == new,
            Err(old) => old != current && n.cell(object).value() == e.cell(object).value(),
        },
{
    lemma_exchanged(e, c, object, success, failure, if_equal(current, new));
}

/// What the fetching updates leave in the atomic, in terms of the value that
/// they return and of their operand: a sum or a difference up to the modulus of
/// the type, the bitwise combination, or the extreme of the two. A `fetch_sub`
/// that finds what a `fetch_add` of the same operand left gives the first value
/// back.
pub proof fn a_fetch_returns_what_it_updates<T: Numeric>(
    e: ExecModel,
    c: Seq<Frozen>,
    object: int,
    order: Order,
    update: Update,
    val: T,
    i: u32,
)
    requires
        e.running(c),
        e.is_cell(object),
        e.cell(object).partitioned(FULL_MASK).partitioned(FULL_MASK).regions.len() <= usize::MAX,
        i < T::bit_count(),
    ensures
        fetched(e, object, order, update, val) matches Ok((n, old)) ==> {
            let new = held::<T>(n, object);
            let (o, v, w) = (
                bit(old.to_bits(), i),
                bit(val.to_bits(), i),
                bit(new.to_bits(), i),
            );
            match update {
                Update::Swap => new == val,
                Update::Add => congruent(
                    new.number(),
                    old.number() + val.number(),
                    T::modulus(),
                ) && new.updated(Update::Sub, val) == old,
                Update::Sub => congruent(
                    new.number(),
                    old.number() - val.number(),
                    T::modulus(),
                ) && new.updated(Update::Add, val) == old,
                Update::And => w == (o && v),
                Update::Nand => w == !(o && v),
                Update::Or => w == (o || v),
                Update::Xor => w == (o != v),
                Update::Max => (new == old || new == val) && new.number() >= old.number()
                    && new.number() >= val.number(),
                Update::Min => (new == old || new == val) && new.number() <= old.number()
                    && new.number() <= val.number(),
            }
        },
{
    let next = |old: T| Some(old.updated(update, val));
    lemma_exchanged(e, c, object, order, order, next);
    if let Ok((n, old)) = fetched(e, object, order, update, val) {
        let r = exchanged(e, object, FULL_MASK, FULL_MASK, order, order, next)->Ok_0.1;
        match r {
            Ok(v) => {
                assert(next(v) == Some(v.updated(update, val)));
            },
            Err(v) => {
                assert(next(v) == Some(v.updated(update, val)));
            },
        }
        old.updates(val, i);
    }
}

/// A `fetch_sub` that finds what a `fetch_add` of the same operand left gives
/// the first value back, and the other way round.
pub proof fn fetch_sub_undoes_fetch_add<T: Numeric>(
    e: ExecModel,
    c: Seq<Frozen>,
    object: int,
    first: Order,
    second: Order,
    val: T,
    update: Update,
    back: Update,
)
    requires
        e.running(c),
        e.is_cell(object),
        e.cell(object).partitioned(FULL_MASK).partitioned(FULL_MASK).regions.len() <= usize::MAX,
        (update == Update::Add && back == Update::Sub) || (update == Update::Sub && back
            == Update::Add),
    ensures
        fetched(e, object, first, update, val) matches Ok((n, old)) ==> (n.running(c)
            && n.is_cell(object) && n.cell(object).partitioned(FULL_MASK).partitioned(
            FULL_MASK,
        ).regions.len() <= usize::MAX ==> (fetched(n, object, second, back, val) matches Ok(
            (m, found),
        ) ==> (found == held::<T>(n, object) ==> held::<T>(m, object) == old))),
{
    if let Ok((n, old)) = fetched(e, object, first, update, val) {
        let next = |o: T| Some(o.updated(update, val));
        let prev = |o: T| Some(o.updated(back, val));
        lemma_exchanged(e, c, object, first, first, next);
        assert(next(old) == Some(old.updated(update, val)));
        old.updates(val, 0);
        if n.running(c) && n.is_cell(object) && n.cell(object).partitioned(FULL_MASK).partitioned(
            FULL_MASK,
        ).regions.len() <= usize::MAX {
            lemma_exchanged(n, c, object, second, second, prev);
            if let Ok((m, found)) = fetched(n, object, second, back, val) {
                assert(prev(found) == Some(found.updated(back, val)));
            }
        }
    }
}

/// A merge takes the bits under the mask from the new value and the others
/// from the old one.
pub proof fn a_merge_replaces_the_masked_bits<T: Numeric>(old: T, new: T, mask: T, i: u32)
    requires
        i < T::bit_count(),
    ensures
        bit(merged(old, new, mask).to_bits(), i) == if bit(mask.to_bits(), i) {
            bit(new.to_bits(), i)
        } else {
            bit(old.to_bits(), i)
        },
{
    let outside = mask.updated(Update::Nand, mask);
    let kept = old.updated(Update::And, outside);
    let set = new.updated(Update::And, mask);
    mask.updates(mask, i);
    old.updates(outside, i);
    new.updates(mask, i);
    kept.updates(set, i);
}

/// A compare-exchange under a mask succeeds only where the bits under the mask
/// are the expected ones, and replaces those alone; one that keeps bits
/// compares all of them and replaces the others.
pub proof fn a_partial_exchange_leaves_the_rest<T: Numeric>(
    mask: T,
    current: T,
    new: T,
    old: T,
    i: u32,
)
    requires
        i < T::bit_count(),
    ensures
        ({
            let (m, c, n, o) = (
                bit(mask.to_bits(), i),
                bit(current.to_bits(), i),
                bit(new.to_bits(), i),
                bit(old.to_bits(), i),
            );
            &&& if_equal_under(mask, current, new)(old) matches Some(next) ==> {
                &&& m ==> o == c && bit(next.to_bits(), i) == n
                &&& !m ==> bit(next.to_bits(), i) == o
            }
            &&& old == current ==> if_equal_under(mask, current, new)(old) is Some
            &&& m && o != c ==> if_equal_under(mask, current, new)(old) is None
            &&& if_equal_keeping(mask, current, new)(old) is Some <==> old == current
            &&& if_equal_keeping(mask, current, new)(old) matches Some(next) ==> {
                &&& m ==> bit(next.to_bits(), i) == o
                &&& !m ==> bit(next.to_bits(), i) == n
            }
        }),
{
    a_merge_replaces_the_masked_bits(old, new, mask, i);
    a_merge_replaces_the_masked_bits(new, old, mask, i);
    old.updates(mask, i);
    current.updates(mask, i);
}

/// The failure ordering of `compare_and_swap` acquires where the success
/// ordering does, and releases nothing that a load could not.
pub proof fn a_failed_swap_only_loads(order: Order)
    ensures
        cas_failure(order).joins() == order.joins(),
        cas_failure(order) == Order::SeqCst <==> order == Order::SeqCst,
        cas_failure(order) != Order::Release,
        cas_failure(order) != Order::AcqRel,
{
}

} // verus!
