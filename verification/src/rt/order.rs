//! Memory orderings.
use vstd::prelude::*;

verus! {

/// How an atomic operation orders memory.
#[derive(Debug, Clone, Copy, PartialEq, Eq, Structural)]
pub enum Order {
    Relaxed,
    Release,
    Acquire,
    AcqRel,
    SeqCst,
}

impl Order {
    /// A load of this ordering joins the store's release view into the
    /// reader's causality.
    pub open spec fn joins(self) -> bool {
        self == Order::Acquire || self == Order::AcqRel || self == Order::SeqCst
    }

    /// A store of this ordering publishes the writer's causality.
    pub open spec fn publishes(self) -> bool {
        self == Order::Release || self == Order::AcqRel || self == Order::SeqCst
    }
}

pub fn is_seq_cst(order: Order) -> (r: bool)
    ensures
        r == (order == Order::SeqCst),
{
    order == Order::SeqCst
}

/// True when a load of this ordering joins the store's release view into the
/// reader's causality.
pub fn acquires(order: Order) -> (r: bool)
    ensures
        r == order.joins(),
{
    match order {
        Order::Acquire | Order::AcqRel | Order::SeqCst => true,
        _ => false,
    }
}

/// True when a store of this ordering publishes the writer's causality.
pub fn releases(order: Order) -> (r: bool)
    ensures
        r == order.publishes(),
{
    match order {
        Order::Release | Order::AcqRel | Order::SeqCst => true,
        _ => false,
    }
}

/// Which orderings synchronize: a load acquires with `Acquire`, `AcqRel` and
/// `SeqCst`, a store releases with `Release`, `AcqRel` and `SeqCst`, and a
/// relaxed operation does neither.
pub proof fn orderings_synchronize_as_named(order: Order)
    ensures
        match order {
            Order::Relaxed => !order.joins() && !order.publishes(),
            Order::Acquire => order.joins() && !order.publishes(),
            Order::Release => !order.joins() && order.publishes(),
            Order::AcqRel => order.joins() && order.publishes(),
            Order::SeqCst => order.joins() && order.publishes(),
        },
{
}

} // verus!
