//! The lazily initialized statics of an execution.
use std::collections::HashMap;
use vstd::prelude::*;

use crate::rt::synchronize::Synchronize;

verus! {

/// Identity of a static: where it is.
#[derive(Debug, Clone, Copy, PartialEq, Eq, Structural)]
pub struct StaticKeyId(pub u64);

/// A registered static: the causality of its initialization, and a handle by
/// which its value is found.
#[derive(Debug, Clone, Copy)]
pub struct StaticValue {
    pub sync: Synchronize,
    pub handle: u64,
}

impl StaticValue {
    pub fn new(handle: u64) -> (r: StaticValue)
        ensures
            r == (StaticValue { sync: Synchronize::empty(), handle }),
    {
        StaticValue { sync: Synchronize::new(), handle }
    }
}

/// The statics of an execution.
pub struct Statics {
    /// Registered statics, by their identity. The table is retained across
    /// executions; only its contents are of one execution.
    statics: HashMap<u64, StaticValue>,
    /// False between `drop` and the next `reset`: the execution is tearing
    /// down and the statics are gone even though the table still exists.
    live: bool,
}

/// What the statics are.
#[verifier::ext_equal]
pub struct StaticsModel {
    pub entries: Map<u64, StaticValue>,
    pub live: bool,
}

impl View for Statics {
    type V = StaticsModel;

    closed spec fn view(&self) -> StaticsModel {
        StaticsModel { entries: self.statics@, live: self.live }
    }
}

impl StaticsModel {
    /// Nothing is registered while the execution is tearing down.
    pub open spec fn wf(self) -> bool {
        !self.live ==> self.entries == Map::<u64, StaticValue>::empty()
    }

    /// The static `key` is registered.
    pub open spec fn knows(self, key: StaticKeyId) -> bool {
        self.entries.contains_key(key.0)
    }
}

/// The values of the table, each once, at the places that `keys` gives them.
pub open spec fn listed(
    values: Seq<StaticValue>,
    keys: Seq<u64>,
    entries: Map<u64, StaticValue>,
) -> bool {
    &&& keys.len() == values.len()
    &&& keys.no_duplicates()
    &&& keys.to_set() == entries.dom()
    &&& forall|i: int| 0 <= i < keys.len() ==> values[i] == entries[#[trigger] keys[i]]
}

impl Statics {
    /// Create an empty statics set.
    pub fn new() -> (r: Statics)
        ensures
            r@ == (StaticsModel { entries: Map::empty(), live: true }),
            r@.wf(),
    {
        Statics { statics: HashMap::new(), live: true }
    }

    pub fn is_live(&self) -> (r: bool)
        ensures
            r == self@.live,
    {
        self.live
    }

    /// Get ready for the next execution. The statics of the last one must have
    /// been dropped.
    pub fn reset(&mut self)
        requires
            old(self)@.wf(),
            !old(self)@.live,
        ensures
            final(self)@ == (StaticsModel { live: true, ..old(self)@ }),
            final(self)@.entries == Map::<u64, StaticValue>::empty(),
            final(self)@.wf(),
    {
        self.live = true;
    }

    /// Hand the execution's statics out to be dropped by the caller, in an
    /// order of which nothing is said. They cannot be dropped twice in one
    /// execution.
    pub fn drop(&mut self) -> (r: Vec<StaticValue>)
        requires
            old(self)@.live,
        ensures
            exists|keys: Seq<u64>| #[trigger] listed(r@, keys, old(self)@.entries),
            final(self)@ == (StaticsModel { entries: Map::empty(), live: false }),
            final(self)@.wf(),
    {
        broadcast use vstd::std_specs::hash::group_hash_axioms;

        let ghost entries = self.statics@;
        let ghost mut keys: Seq<u64> = Seq::empty();
        let mut out: Vec<StaticValue> = Vec::new();
        for (key, value) in all: self.statics.iter()
            invariant
                entries == self.statics@,
                entries == old(self)@.entries,
                keys.len() == all.index(),
                out@.len() == all.index(),
                all.seq().no_duplicates(),
                all.seq().len() == entries.dom().len(),
                forall|i: int|
                    0 <= i < all.seq().len() ==> entries.contains_key(*(#[trigger] all.seq()[i]).0)
                        && entries[*all.seq()[i].0] == *all.seq()[i].1,
                forall|i: int|
                    0 <= i < keys.len() ==> (#[trigger] keys[i]) == *all.seq()[i].0 && out@[i]
                        == *all.seq()[i].1,
        {
            proof {
                keys = keys.push(*key);
            }
            out.push(*value);
        }
        proof {
            assert(keys.no_duplicates());
            keys.unique_seq_to_set();
            assert(keys.to_set().subset_of(entries.dom()));
            vstd::set_lib::lemma_subset_equality(keys.to_set(), entries.dom());
            assert(listed(out@, keys, entries));
        }
        self.live = false;
        self.statics.clear();
        out
    }

    /// The registered static, if it is. Statics cannot be accessed during
    /// shutdown.
    pub fn get_static(&self, key: StaticKeyId) -> (r: Option<StaticValue>)
        requires
            self@.live,
        ensures
            r == if self@.knows(key) {
                Some(self@.entries[key.0])
            } else {
                None
            },
    {
        broadcast use vstd::std_specs::hash::group_hash_axioms;

        match self.statics.get(&key.0) {
            Some(value) => Some(*value),
            None => None,
        }
    }

    /// Register a static that is not registered yet.
    pub fn init_static(&mut self, key: StaticKeyId, value: StaticValue)
        requires
            old(self)@.live,
            !old(self)@.knows(key),
        ensures
            final(self)@ == (StaticsModel {
                entries: old(self)@.entries.insert(key.0, value),
                ..old(self)@
            }),
            final(self)@.wf(),
    {
        broadcast use vstd::std_specs::hash::group_hash_axioms;

        self.statics.insert(key.0, value);
    }
}

/// A static is found again as it was registered, and registering it changes
/// nothing that is found of any other.
pub proof fn registered_statics_are_found(
    s: StaticsModel,
    key: StaticKeyId,
    value: StaticValue,
    other: StaticKeyId,
)
    requires
        !s.knows(key),
    ensures
        ({
            let n = StaticsModel { entries: s.entries.insert(key.0, value), ..s };
            &&& n.knows(key)
            &&& n.entries[key.0] == value
            &&& other != key ==> n.knows(other) == s.knows(other) && (s.knows(other)
                ==> n.entries[other.0] == s.entries[other.0])
        }),
{
}

} // verus!
