//! Causality that a store hands to its readers.
use vstd::prelude::*;

use crate::rt::order::{acquires, releases, Order};
use crate::rt::thread::{Threads, ThreadsModel};
use crate::rt::vv::VersionVec;

verus! {

/// The release view of a store.
#[derive(Debug, Clone, Copy)]
pub struct Synchronize {
    pub happens_before: VersionVec,
}

impl Synchronize {
    /// The view that hands on nothing.
    pub open spec fn empty() -> Synchronize {
        Synchronize { happens_before: VersionVec::zero() }
    }

    /// The view after the active thread of `t` stored with it: it hands on
    /// what the thread released by a fence, and with a releasing order all
    /// that the thread has seen.
    pub open spec fn stored(self, t: ThreadsModel, order: Order) -> Synchronize {
        let fenced = self.happens_before.joined(t.current().released);
        Synchronize {
            happens_before: if order.publishes() {
                fenced.joined(t.current().causality)
            } else {
                fenced
            },
        }
    }

    pub fn new() -> (r: Synchronize)
        ensures
            r == Synchronize::empty(),
    {
        Synchronize { happens_before: VersionVec::new() }
    }

    /// The active thread reads the store.
    pub fn sync_load(&self, threads: &mut Threads, order: Order)
        requires
            old(threads)@.running(),
        ensures
            final(threads)@ == old(threads)@.synced(self.happens_before, order),
            final(threads)@.running(),
    {
        if acquires(order) {
            threads.learn(&self.happens_before);
        }
    }

    /// The active thread writes the store.
    pub fn sync_store(&mut self, threads: &Threads, order: Order)
        requires
            threads@.running(),
        ensures
            *final(self) == old(self).stored(threads@, order),
    {
        let th = threads.current();
        self.happens_before.join(&th.released);
        if releases(order) {
            self.happens_before.join(&th.causality);
        }
    }
}

} // verus!
