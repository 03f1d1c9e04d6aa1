//! Tables from identities to objects: the hash maps of the `rustc-hash` crate.
//!
//! Such a map is a `std` hash map with a hasher that is a fixed function of
//! the key. Its view is the map from keys to values.
use rustc_hash::{FxBuildHasher, FxHashMap};
use vstd::prelude::*;

verus! {

/// The hasher of the tables.
#[verifier::external_type_specification]
#[verifier::external_body]
pub struct ExFxBuildHasher(FxBuildHasher);

/// Address `addr` lies in the `len` bytes at `base`.
pub open spec fn in_range(addr: u64, base: u64, len: u64) -> bool {
    base <= addr && addr - base < len
}

/// Whether address `addr` lies in the `len` bytes at `base`.
pub fn is_in_range(addr: u64, base: u64, len: u64) -> (r: bool)
    ensures
        r == in_range(addr, base, len),
{
    base <= addr && addr - base < len
}

/// Whether address `addr` lies outside the `len` bytes at `base`.
pub fn is_outside(addr: u64, base: u64, len: u64) -> (r: bool)
    ensures
        r == !in_range(addr, base, len),
{
    !is_in_range(addr, base, len)
}

/// The table with no entry.
pub open spec fn no_entries() -> Map<u64, usize> {
    Map::empty()
}

/// `FxHashMap::default`: a table with no entry.
#[verifier::external_body]
pub(crate) fn table_new() -> (r: FxHashMap<u64, usize>)
    ensures
        r@ == no_entries(),
{
    FxHashMap::default()
}

/// `HashMap::get`: the entry of a key, if there is one.
#[verifier::external_body]
pub(crate) fn table_get(table: &FxHashMap<u64, usize>, key: u64) -> (r: Option<usize>)
    ensures
        r == (if table@.contains_key(key) {
            Some(table@[key])
        } else {
            None
        }),
{
    table.get(&key).copied()
}

/// `HashMap::insert`: the key gets a new entry.
#[verifier::external_body]
pub(crate) fn table_insert(table: &mut FxHashMap<u64, usize>, key: u64, value: usize)
    ensures
        final(table)@ == old(table)@.insert(key, value),
{
    table.insert(key, value);
}

/// `HashMap::clear`: no entry is left.
#[verifier::external_body]
pub(crate) fn table_clear(table: &mut FxHashMap<u64, usize>)
    ensures
        final(table)@ == no_entries(),
{
    table.clear();
}

/// `HashMap::retain`: the entries whose key lies in the range are gone, and
/// the others are as they were.
#[verifier::external_body]
pub(crate) fn table_retain_outside(table: &mut FxHashMap<u64, usize>, base: u64, len: u64)
    ensures
        forall|k: u64|
            #[trigger] final(table)@.contains_key(k) == (old(table)@.contains_key(k) && !in_range(
                k,
                base,
                len,
            )),
        forall|k: u64|
            final(table)@.contains_key(k) ==> #[trigger] final(table)@[k] == old(table)@[k],
{
    table.retain(|&key, _| is_outside(key, base, len));
}

/// `HashMap::iter`: every entry once, in an order of which nothing is said.
#[verifier::external_body]
pub(crate) fn table_entries(table: &FxHashMap<u64, usize>) -> (r: Vec<(u64, usize)>)
    ensures
        forall|i: int|
            0 <= i < r@.len() ==> table@.contains_key((#[trigger] r@[i]).0) && table@[r@[i].0]
                == r@[i].1,
        forall|k: u64|
            #[trigger] table@.contains_key(k) ==> exists|i: int|
                0 <= i < r@.len() && (#[trigger] r@[i]).0 == k,
        forall|i: int, j: int|
            #![trigger r@[i], r@[j]]
            0 <= i < j < r@.len() ==> r@[i].0 != r@[j].0,
{
    table.iter().map(|(key, value)| (*key, *value)).collect()
}

} // verus!
