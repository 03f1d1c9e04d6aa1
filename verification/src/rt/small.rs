//! Short lists that live inline: the `smallvec` crate.
//!
//! The three structs hide a `SmallVec` each. What such a list holds is named
//! by a function of its own, and the methods say what `SmallVec` does to it.
//! As with `Vec`, running out of memory is not modelled.
use smallvec::SmallVec;
use vstd::prelude::*;

verus! {

/// The wide-operation visibility that a multi-region load has fixed so far:
/// one `(op_id, seen)` per operation that the regions already resolved speak
/// for. Sized inline for one entry per live store of every region of a
/// 32-bit-laned 128-bit cell.
#[verifier::external_body]
pub struct Resolved {
    list: SmallVec<[(u64, bool); 28]>,
}

/// What a list of resolved operations holds.
pub uninterp spec fn resolved_entries(list: Resolved) -> Seq<(u64, bool)>;

impl View for Resolved {
    type V = Seq<(u64, bool)>;

    open spec fn view(&self) -> Seq<(u64, bool)> {
        resolved_entries(*self)
    }
}

/// `SmallVec::new`: a list that holds nothing.
#[verifier::external_body]
pub(crate) fn resolved_new() -> (r: Resolved)
    ensures
        resolved_entries(r) == Seq::<(u64, bool)>::empty(),
{
    Resolved { list: SmallVec::new() }
}

/// `SmallVec::len`: the number of entries.
#[verifier::external_body]
pub(crate) fn resolved_len(list: &Resolved) -> (r: usize)
    ensures
        r == resolved_entries(*list).len(),
{
    list.list.len()
}

/// `SmallVec::index`: the entry at `i`.
#[verifier::external_body]
pub(crate) fn resolved_get(list: &Resolved, i: usize) -> (r: (u64, bool))
    requires
        i < resolved_entries(*list).len(),
    ensures
        r == resolved_entries(*list)[i as int],
{
    list.list[i]
}

/// `SmallVec::push`: the entry is appended.
#[verifier::external_body]
pub(crate) fn resolved_push(list: &mut Resolved, entry: (u64, bool))
    ensures
        resolved_entries(*final(list)) == resolved_entries(*old(list)).push(entry),
{
    list.list.push(entry)
}

/// `SmallVec::truncate`: the first `len` entries are kept.
#[verifier::external_body]
pub(crate) fn resolved_truncate(list: &mut Resolved, len: usize)
    requires
        len <= resolved_entries(*old(list)).len(),
    ensures
        resolved_entries(*final(list)) == resolved_entries(*old(list)).take(len as int),
{
    list.list.truncate(len)
}

/// Pairs of a region and a slot.
#[verifier::external_body]
pub struct Pairs {
    list: SmallVec<[(usize, usize); 4]>,
}

/// What a list of pairs holds.
pub uninterp spec fn pairs_entries(list: Pairs) -> Seq<(usize, usize)>;

impl View for Pairs {
    type V = Seq<(usize, usize)>;

    open spec fn view(&self) -> Seq<(usize, usize)> {
        pairs_entries(*self)
    }
}

/// `SmallVec::new`: a list that holds nothing.
#[verifier::external_body]
pub(crate) fn pairs_new() -> (r: Pairs)
    ensures
        pairs_entries(r) == Seq::<(usize, usize)>::empty(),
{
    Pairs { list: SmallVec::new() }
}

/// `SmallVec::len`: the number of pairs.
#[verifier::external_body]
pub(crate) fn pairs_len(list: &Pairs) -> (r: usize)
    ensures
        r == pairs_entries(*list).len(),
{
    list.list.len()
}

/// `SmallVec::index`: the pair at `i`.
#[verifier::external_body]
pub(crate) fn pairs_get(list: &Pairs, i: usize) -> (r: (usize, usize))
    requires
        i < pairs_entries(*list).len(),
    ensures
        r == pairs_entries(*list)[i as int],
{
    list.list[i]
}

/// `SmallVec::push`: the pair is appended.
#[verifier::external_body]
pub(crate) fn pairs_push(list: &mut Pairs, entry: (usize, usize))
    ensures
        pairs_entries(*final(list)) == pairs_entries(*old(list)).push(entry),
{
    list.list.push(entry)
}

/// `SmallVec::clone`: a list that holds the same pairs.
#[verifier::external_body]
pub(crate) fn pairs_clone(list: &Pairs) -> (r: Pairs)
    ensures
        pairs_entries(r) == pairs_entries(*list),
{
    Pairs { list: list.list.clone() }
}

/// Indices of regions or of objects.
#[verifier::external_body]
pub struct Indices {
    list: SmallVec<[usize; 4]>,
}

/// What a list of indices holds.
pub uninterp spec fn indices_entries(list: Indices) -> Seq<usize>;

impl View for Indices {
    type V = Seq<usize>;

    open spec fn view(&self) -> Seq<usize> {
        indices_entries(*self)
    }
}

/// `SmallVec::new`: a list that holds nothing.
#[verifier::external_body]
pub(crate) fn indices_new() -> (r: Indices)
    ensures
        indices_entries(r) == Seq::<usize>::empty(),
{
    Indices { list: SmallVec::new() }
}

/// `SmallVec::len`: the number of indices.
#[verifier::external_body]
pub(crate) fn indices_len(list: &Indices) -> (r: usize)
    ensures
        r == indices_entries(*list).len(),
{
    list.list.len()
}

/// `SmallVec::index`: the index at `i`.
#[verifier::external_body]
pub(crate) fn indices_get(list: &Indices, i: usize) -> (r: usize)
    requires
        i < indices_entries(*list).len(),
    ensures
        r == indices_entries(*list)[i as int],
{
    list.list[i]
}

/// `SmallVec::push`: the index is appended.
#[verifier::external_body]
pub(crate) fn indices_push(list: &mut Indices, entry: usize)
    ensures
        indices_entries(*final(list)) == indices_entries(*old(list)).push(entry),
{
    list.list.push(entry)
}

impl Indices {
    /// The indices as a vector.
    pub fn to_vec(&self) -> (r: Vec<usize>)
        ensures
            r@ == self@,
    {
        let mut out: Vec<usize> = Vec::new();
        let n: usize = indices_len(self);
        let mut i: usize = 0;
        while i < n
            invariant
                i <= n,
                n == self@.len(),
                out@ == self@.take(i as int),
            decreases n - i,
        {
            out.push(indices_get(self, i));
            i += 1;
            assert(out@ =~= self@.take(i as int));
        }
        assert(out@ =~= self@);
        out
    }
}

} // verus!
