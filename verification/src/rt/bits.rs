//! Sets of threads as bit masks.
use vstd::prelude::*;

verus! {

/// Thread `i` is in the set `mask`.
pub open spec fn holds(mask: u16, i: int) -> bool {
    mask & (1u16 << (i as u16)) != 0
}

/// The set that holds thread `i` alone.
pub open spec fn only(i: int) -> u16 {
    1u16 << (i as u16)
}

/// The set of the threads below `i`.
pub open spec fn under(i: int) -> u16 {
    ((1u16 << (i as u16)) - 1) as u16
}

pub broadcast proof fn lemma_or(a: u16, b: u16, i: int)
    requires
        0 <= i < 16,
    ensures
        #[trigger] holds(a | b, i) == (holds(a, i) || holds(b, i)),
{
    let s = i as u16;
    assert((a | b) & (1u16 << s) != 0 <==> (a & (1u16 << s) != 0 || b & (1u16 << s) != 0))
        by (bit_vector);
}

pub broadcast proof fn lemma_and(a: u16, b: u16, i: int)
    requires
        0 <= i < 16,
    ensures
        #[trigger] holds(a & b, i) == (holds(a, i) && holds(b, i)),
{
    let s = i as u16;
    assert((a & b) & (1u16 << s) != 0 <==> (a & (1u16 << s) != 0 && b & (1u16 << s) != 0))
        by (bit_vector)
        requires
            s < 16,
    ;
}

pub broadcast proof fn lemma_not(a: u16, i: int)
    requires
        0 <= i < 16,
    ensures
        #[trigger] holds(!a, i) == !holds(a, i),
{
    let s = i as u16;
    assert((!a) & (1u16 << s) != 0 <==> a & (1u16 << s) == 0) by (bit_vector)
        requires
            s < 16,
    ;
}

pub broadcast proof fn lemma_only(i: int, j: int)
    requires
        0 <= i < 16,
        0 <= j < 16,
    ensures
        #[trigger] holds(only(i), j) == (i == j),
{
    let s = i as u16;
    let t = j as u16;
    assert((1u16 << s) & (1u16 << t) != 0 <==> s == t) by (bit_vector)
        requires
            s < 16,
            t < 16,
    ;
}

pub broadcast proof fn lemma_under(i: int, j: int)
    requires
        0 <= i < 16,
        0 <= j < 16,
    ensures
        #[trigger] holds(under(i), j) == (j < i),
{
    let s = i as u16;
    let t = j as u16;
    assert((((1u16 << s) - 1) as u16) & (1u16 << t) != 0 <==> t < s) by (bit_vector)
        requires
            s < 16,
            t < 16,
    ;
    assert(1u16 << s >= 1) by (bit_vector)
        requires
            s < 16,
    ;
}

pub broadcast proof fn lemma_none(i: int)
    ensures
        #[trigger] holds(0, i) == false,
{
    let s = 1u16 << (i as u16);
    assert(0u16 & s == 0) by (bit_vector);
}

/// Sets with the same members are the same mask.
pub proof fn lemma_ext(a: u16, b: u16)
    requires
        forall|i: int| 0 <= i < 16 ==> #[trigger] holds(a, i) == holds(b, i),
    ensures
        a == b,
{
    assert forall|s: u16| s < 16 implies #[trigger] ((a ^ b) & (1u16 << s)) == 0 by {
        assert(holds(a, s as int) == holds(b, s as int));
        assert((a & (1u16 << s) != 0 <==> b & (1u16 << s) != 0) ==> (a ^ b) & (1u16 << s) == 0)
            by (bit_vector)
            requires
                s < 16,
        ;
    }
    let x = a ^ b;
    assert(x & (1u16 << 0u16) == 0 && x & (1u16 << 1u16) == 0 && x & (1u16 << 2u16) == 0
        && x & (1u16 << 3u16) == 0 && x & (1u16 << 4u16) == 0 && x & (1u16 << 5u16) == 0
        && x & (1u16 << 6u16) == 0 && x & (1u16 << 7u16) == 0 && x & (1u16 << 8u16) == 0
        && x & (1u16 << 9u16) == 0 && x & (1u16 << 10u16) == 0 && x & (1u16 << 11u16) == 0
        && x & (1u16 << 12u16) == 0 && x & (1u16 << 13u16) == 0 && x & (1u16 << 14u16) == 0
        && x & (1u16 << 15u16) == 0);
    assert(a == b) by (bit_vector)
        requires
            x == a ^ b,
            x & (1u16 << 0u16) == 0,
            x & (1u16 << 1u16) == 0,
            x & (1u16 << 2u16) == 0,
            x & (1u16 << 3u16) == 0,
            x & (1u16 << 4u16) == 0,
            x & (1u16 << 5u16) == 0,
            x & (1u16 << 6u16) == 0,
            x & (1u16 << 7u16) == 0,
            x & (1u16 << 8u16) == 0,
            x & (1u16 << 9u16) == 0,
            x & (1u16 << 10u16) == 0,
            x & (1u16 << 11u16) == 0,
            x & (1u16 << 12u16) == 0,
            x & (1u16 << 13u16) == 0,
            x & (1u16 << 14u16) == 0,
            x & (1u16 << 15u16) == 0,
    ;
}

/// A set is empty exactly when it has no member.
pub proof fn lemma_empty(a: u16)
    ensures
        a == 0 <==> forall|i: int| 0 <= i < 16 ==> !#[trigger] holds(a, i),
{
    broadcast use lemma_none;

    if forall|i: int| 0 <= i < 16 ==> !#[trigger] holds(a, i) {
        assert forall|i: int| 0 <= i < 16 implies #[trigger] holds(a, i) == holds(0, i) by {}
        lemma_ext(a, 0);
    }
}

pub broadcast group group_bits {
    lemma_or,
    lemma_and,
    lemma_not,
    lemma_only,
    lemma_under,
    lemma_none,
}

/// The set that holds thread `i` alone.
pub fn bit(i: usize) -> (r: u16)
    requires
        i < 16,
    ensures
        r == only(i as int),
{
    1u16 << (i as u16)
}

/// Whether thread `i` is in the set `mask`.
pub fn test(mask: u16, i: usize) -> (r: bool)
    requires
        i < 16,
    ensures
        r == holds(mask, i as int),
{
    mask & (1u16 << (i as u16)) != 0
}

/// The set of the threads below `i`.
pub fn below(i: usize) -> (r: u16)
    requires
        i < 16,
    ensures
        r == under(i as int),
{
    let s: u16 = i as u16;
    assert(1u16 << s >= 1) by (bit_vector)
        requires
            s < 16,
    ;
    (1u16 << s) - 1
}

/// The lowest thread at or above `i` in the set, if any.
pub open spec fn lowest_from(mask: u16, i: int) -> Option<int>
    decreases 16 - i,
{
    if i >= 16 {
        None
    } else if holds(mask, i) {
        Some(i)
    } else {
        lowest_from(mask, i + 1)
    }
}

/// The lowest thread in the set, if any.
pub open spec fn first(mask: u16) -> Option<int> {
    lowest_from(mask, 0)
}

proof fn lemma_lowest_from(mask: u16, i: int, r: int)
    requires
        0 <= i <= r < 16,
        holds(mask, r),
        forall|j: int| i <= j < r ==> !#[trigger] holds(mask, j),
    ensures
        lowest_from(mask, i) == Some(r),
    decreases r - i,
{
    if i < r {
        assert(!holds(mask, i));
        lemma_lowest_from(mask, i + 1, r);
    }
}

proof fn lemma_lowest_from_none(mask: u16, i: int)
    requires
        0 <= i <= 16,
        forall|j: int| i <= j < 16 ==> !#[trigger] holds(mask, j),
    ensures
        lowest_from(mask, i) is None,
    decreases 16 - i,
{
    if i < 16 {
        assert(!holds(mask, i));
        lemma_lowest_from_none(mask, i + 1);
    }
}

/// The lowest thread of a set is in it, and an empty set has none.
pub proof fn lemma_first(mask: u16)
    ensures
        match first(mask) {
            Some(i) => 0 <= i < 16 && holds(mask, i) && forall|j: int|
                0 <= j < i ==> !#[trigger] holds(mask, j),
            None => mask == 0,
        },
{
    lemma_empty(mask);
    if mask == 0 {
        lemma_lowest_from_none(mask, 0);
    } else {
        let w = choose|w: int| 0 <= w < 16 && #[trigger] holds(mask, w);
        lemma_first_up_to(mask, w);
    }
}

proof fn lemma_first_up_to(mask: u16, w: int)
    requires
        0 <= w < 16,
        holds(mask, w),
    ensures
        first(mask) matches Some(i) && 0 <= i < 16 && holds(mask, i) && forall|j: int|
            0 <= j < i ==> !#[trigger] holds(mask, j),
    decreases w,
{
    if exists|v: int| 0 <= v < w && #[trigger] holds(mask, v) {
        let v = choose|v: int| 0 <= v < w && #[trigger] holds(mask, v);
        lemma_first_up_to(mask, v);
    } else {
        lemma_lowest_from(mask, 0, w);
    }
}

/// The lowest thread in the set, if any.
pub fn lowest(mask: u16) -> (r: Option<usize>)
    ensures
        match r {
            Some(i) => first(mask) == Some(i as int) && i < 16,
            None => first(mask) is None,
        },
{
    let mut i: usize = 0;
    while i < 16
        invariant
            0 <= i <= 16,
            forall|j: int| 0 <= j < i ==> !#[trigger] holds(mask, j),
        decreases 16 - i,
    {
        if test(mask, i) {
            proof {
                lemma_lowest_from(mask, 0, i as int);
            }
            return Some(i);
        }
        i += 1;
    }
    proof {
        lemma_lowest_from_none(mask, 0);
    }
    None
}

} // verus!
