//! Fetch-and-update as the turns it takes.
//!
//! The function that computes the new value belongs to the code under test, so
//! it runs between the modelled steps.
use vstd::prelude::*;

use crate::rt::atomic::action::FULL_MASK;
use crate::rt::claims::Claims;
use crate::rt::execution::Execution;
use crate::rt::fault::Fault;
use crate::rt::order::Order;
use crate::sync::atomic::num::Numeric;
use crate::sync::atomic::{exchanged, if_equal, loaded, Atomic};

verus! {

/// How far a fetch-and-update has come.
#[derive(Debug)]
pub enum Turn<T> {
    /// The value is to be loaded.
    Load,
    /// The function is to be asked for the successor of `prev`.
    Ask { prev: T },
    /// `prev` is to be replaced by `next`.
    Exchange { prev: T, next: T },
    /// The update is over: `Ok` with the value that was replaced, or `Err`
    /// with the value for which the function gave no successor.
    Finished { result: Result<T, T> },
}

/// Fetches the value, and applies a function to it that returns an optional
/// new value, until the exchange succeeds or the function declines. Each turn
/// of the memory is a modelled step of its own.
pub struct FetchUpdate<T> {
    pub atomic: Atomic<T>,
    pub set_order: Order,
    pub fetch_order: Order,
    pub turn: Turn<T>,
}

impl<T: Numeric> FetchUpdate<T> {
    pub fn new(atomic: Atomic<T>, set_order: Order, fetch_order: Order) -> (r: FetchUpdate<T>)
        ensures
            r == (FetchUpdate { atomic, set_order, fetch_order, turn: Turn::Load }),
    {
        FetchUpdate { atomic, set_order, fetch_order, turn: Turn::Load }
    }

    /// What the function answered for the value it was asked about.
    pub fn answer(&mut self, next: Option<T>)
        requires
            old(self).turn is Ask,
        ensures
            *final(self) == (FetchUpdate {
                turn: match next {
                    Some(next) => Turn::Exchange { prev: old(self).turn->Ask_prev, next },
                    None => Turn::Finished { result: Err(old(self).turn->Ask_prev) },
                },
                ..*old(self)
            }),
    {
        if let Turn::Ask { prev } = self.turn {
            self.turn = match next {
                Some(next) => Turn::Exchange { prev, next },
                None => Turn::Finished { result: Err(prev) },
            };
        }
    }

    /// Performs the modelled step that is due, a load or an exchange.
    pub fn advance(&mut self, execution: &mut Execution, claims: &Claims) -> (r: Result<(), Fault>)
        requires
            old(execution)@.running(claims@),
            old(execution)@.is_cell(old(self).atomic.object as int),
            old(self).turn is Load || old(self).turn is Exchange,
        ensures
            match old(self).turn {
                Turn::Exchange { prev, next } => match exchanged(
                    old(execution)@,
                    old(self).atomic.object as int,
                    FULL_MASK,
                    FULL_MASK,
                    old(self).set_order,
                    old(self).fetch_order,
                    if_equal(prev, next),
                ) {
                    Ok((e, v)) => {
                        &&& r is Ok
                        &&& final(execution)@ == e
                        &&& e.running(claims@)
                        &&& *final(self) == (FetchUpdate {
                            turn: match v {
                                Ok(old) => Turn::Finished { result: Ok(old) },
                                Err(old) => Turn::Ask { prev: old },
                            },
                            ..*old(self)
                        })
                    },
                    Err(f) => r == Err::<(), Fault>(f),
                },
                _ => match loaded::<T>(
                    old(execution)@,
                    old(self).atomic.object as int,
                    FULL_MASK,
                    old(self).fetch_order,
                    false,
                ) {
                    Ok((e, v)) => {
                        &&& r is Ok
                        &&& final(execution)@ == e
                        &&& e.running(claims@)
                        &&& *final(self) == (FetchUpdate {
                            turn: Turn::Ask { prev: v },
                            ..*old(self)
                        })
                    },
                    Err(f) => r == Err::<(), Fault>(f),
                },
            },
    {
        if let Turn::Exchange { prev, next } = self.turn {
            match self.atomic.compare_exchange(
                execution,
                claims,
                prev,
                next,
                self.set_order,
                self.fetch_order,
            ) {
                Ok(Ok(old)) => {
                    self.turn = Turn::Finished { result: Ok(old) };
                },
                Ok(Err(old)) => {
                    self.turn = Turn::Ask { prev: old };
                },
                Err(f) => {
                    return Err(f);
                },
            }
        } else {
            match self.atomic.load(execution, claims, self.fetch_order) {
                Ok(prev) => {
                    self.turn = Turn::Ask { prev };
                },
                Err(f) => {
                    return Err(f);
                },
            }
        }
        Ok(())
    }
}

} // verus!
