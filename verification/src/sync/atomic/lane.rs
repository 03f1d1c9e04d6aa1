//! Typed sub-word lane views into a wider atomic cell.
//!
//! A lane is an aligned 32- or 64-bit slice of a 16-byte (or 8-byte)
//! single-copy-atomic cell. Each lane operation is **one** linearization point
//! on exactly the lane's bits: stores and read-modify-writes leave every other
//! bit untouched, and loads are cell-coherent.
//!
//! Byte offsets are offsets into the cell's **little-endian** representation:
//! offset `k` names the value bits from `8 * k` on.
use core::marker::PhantomData;
use vstd::prelude::*;

use crate::rt::claims::{Claims, Frozen};
use crate::rt::execution::{ExecModel, Execution};
use crate::rt::fault::Fault;
use crate::rt::order::Order;
use crate::rt::values::a_rmw_writes_its_bits_alone;
use crate::sync::atomic::if_equal;
use crate::sync::atomic::num::{Numeric, Update};

verus! {

/// An integer that a lane can hold.
pub trait LaneInt: Numeric {
    /// The number of bytes.
    spec fn width() -> usize;

    /// The bits of the integer.
    spec fn ones() -> u128;

    fn bytes() -> (r: usize)
        ensures
            r == Self::width(),
            0 < r <= 8,
    ;

    fn max_bits() -> (r: u128)
        ensures
            r == Self::ones(),
    ;
}

impl LaneInt for u32 {
    open spec fn width() -> usize {
        4
    }

    open spec fn ones() -> u128 {
        0xffff_ffff
    }

    fn bytes() -> usize {
        4
    }

    fn max_bits() -> u128 {
        0xffff_ffff
    }
}

impl LaneInt for u64 {
    open spec fn width() -> usize {
        8
    }

    open spec fn ones() -> u128 {
        0xffff_ffff_ffff_ffff
    }

    fn bytes() -> usize {
        8
    }

    fn max_bits() -> u128 {
        0xffff_ffff_ffff_ffff
    }
}

/// A lane of a cell that is `CELL` bytes wide.
#[derive(Debug)]
pub struct Lane<L, const CELL: usize> {
    pub object: usize,
    pub shift: u32,
    pub kind: PhantomData<L>,
}

/// An aligned 32-bit lane of a 128-bit atomic.
pub type LaneU32Of128 = Lane<u32, 16>;

/// An aligned 64-bit lane of a 128-bit atomic.
pub type LaneU64Of128 = Lane<u64, 16>;

/// An aligned 32-bit lane of a 64-bit atomic.
pub type LaneU32Of64 = Lane<u32, 8>;

/// The bits of a lane within the cell.
pub open spec fn lane_mask<L: LaneInt>(shift: u32) -> u128 {
    L::ones() << shift
}

/// A lane's value in its place within the cell.
pub open spec fn to_cell<L: LaneInt>(shift: u32, v: L) -> u128 {
    v.to_bits() << shift
}

/// The value that the cell `bits` hold in a lane.
pub open spec fn from_cell<L: LaneInt>(shift: u32, bits: u128) -> L {
    L::of_bits(bits >> shift)
}

/// The cell `bits` with `v` in a lane.
pub open spec fn with_lane<L: LaneInt>(shift: u32, bits: u128, v: L) -> u128 {
    (bits & !lane_mask::<L>(shift)) | (to_cell(shift, v) & lane_mask::<L>(shift))
}

/// A read-modify-write of a lane that writes `next(old)` where there is one,
/// and is a load that reports the old lane value otherwise.
pub open spec fn lane_exchanged<L: LaneInt>(
    e: ExecModel,
    object: int,
    shift: u32,
    success: Order,
    failure: Order,
    next: spec_fn(L) -> Option<L>,
) -> Result<(ExecModel, Result<L, L>), Fault> {
    match e.rmw_begun(
        object,
        lane_mask::<L>(shift),
        lane_mask::<L>(shift),
        success,
        failure,
    ) {
        Err(f) => Err(f),
        Ok(half) => {
            let old = from_cell::<L>(shift, half.value);
            match next(old) {
                None => Ok((e.rmw_undone(object, half, failure), Err(old))),
                Some(new) => match e.rmw_done(
                    object,
                    half,
                    with_lane(shift, half.value, new),
                    lane_mask::<L>(shift),
                    success,
                ) {
                    Err(f) => Err(f),
                    Ok(n) => Ok((n, Ok(old))),
                },
            }
        },
    }
}

/// A read-modify-write of a lane that always writes.
pub open spec fn lane_fetched<L: LaneInt>(
    e: ExecModel,
    object: int,
    shift: u32,
    order: Order,
    update: Update,
    val: L,
) -> Result<(ExecModel, L), Fault> {
    match lane_exchanged(
        e,
        object,
        shift,
        order,
        order,
        |old: L| Some(old.updated(update, val)),
    ) {
        Err(f) => Err(f),
        Ok((n, Ok(old))) => Ok((n, old)),
        Ok((n, Err(old))) => Ok((n, old)),
    }
}

impl<L: LaneInt, const CELL: usize> Lane<L, CELL> {
    /// A lane starts at a multiple of its size and ends within the cell.
    pub open spec fn aligned(byte_offset: usize) -> bool {
        byte_offset as int % L::width() as int == 0 && byte_offset + L::width() <= CELL
    }

    /// Whether a lane can start at `byte_offset`.
    pub fn is_aligned(byte_offset: usize) -> (r: bool)
        ensures
            r == Self::aligned(byte_offset),
    {
        let width: usize = L::bytes();
        byte_offset % width == 0 && width <= CELL && byte_offset <= CELL - width
    }

    /// The lane at `byte_offset` of the cell registered as `object`.
    pub fn new(object: usize, byte_offset: usize) -> (r: Lane<L, CELL>)
        requires
            Self::aligned(byte_offset),
            CELL <= 16,
        ensures
            r.object == object,
            r.shift == byte_offset * 8,
    {
        Lane { object, shift: (byte_offset * 8) as u32, kind: PhantomData }
    }

    /// The lane lies within a cell.
    pub open spec fn fits(self) -> bool {
        self.shift < 128
    }

    /// The lane's bits within the cell.
    pub fn mask(&self) -> (r: u128)
        requires
            self.fits(),
        ensures
            r == lane_mask::<L>(self.shift),
    {
        L::max_bits() << self.shift
    }

    fn place(&self, v: L) -> (r: u128)
        requires
            self.fits(),
        ensures
            r == to_cell(self.shift, v),
    {
        v.into_u128() << self.shift
    }

    fn pick(&self, bits: u128) -> (r: L)
        requires
            self.fits(),
        ensures
            r == from_cell::<L>(self.shift, bits),
    {
        L::from_u128(bits >> self.shift)
    }

    /// Loads the lane's value: independently stale per lane for separate
    /// masked stores, but never behind a whole-cell operation that the loading
    /// thread has already observed through any lane.
    pub fn load(&self, execution: &mut Execution, claims: &Claims, order: Order) -> (r: Result<
        L,
        Fault,
    >)
        requires
            self.fits(),
            old(execution)@.running(claims@),
            old(execution)@.is_cell(self.object as int),
        ensures
            match old(execution)@.loaded(
                self.object as int,
                lane_mask::<L>(self.shift),
                order,
                true,
            ) {
                Ok((e, bits)) => {
                    &&& r == Ok::<L, Fault>(from_cell(self.shift, bits))
                    &&& final(execution)@ == e
                    &&& e.running(claims@)
                },
                Err(f) => r == Err::<L, Fault>(f),
            },
    {
        match execution.load(claims, self.object, self.mask(), order, true) {
            Ok(bits) => Ok(self.pick(bits)),
            Err(f) => Err(f),
        }
    }

    /// Stores into the lane, preserving every other bit of the cell.
    pub fn store(&self, execution: &mut Execution, claims: &Claims, val: L, order: Order) -> (r:
        Result<(), Fault>)
        requires
            self.fits(),
            old(execution)@.running(claims@),
            old(execution)@.is_cell(self.object as int),
        ensures
            match old(execution)@.stored(
                self.object as int,
                lane_mask::<L>(self.shift),
                to_cell(self.shift, val),
                order,
            ) {
                Ok(e) => r is Ok && final(execution)@ == e && e.running(claims@),
                Err(f) => r == Err::<(), Fault>(f),
            },
    {
        execution.store(claims, self.object, self.mask(), self.place(val), order)
    }

    /// One-step masked read-modify-write with a function that gives the new
    /// lane value, or none.
    fn exchange<F: FnOnce(L) -> Option<L>>(
        &self,
        execution: &mut Execution,
        claims: &Claims,
        success: Order,
        failure: Order,
        f: F,
        Ghost(next): Ghost<spec_fn(L) -> Option<L>>,
    ) -> (r: Result<Result<L, L>, Fault>)
        requires
            self.fits(),
            old(execution)@.running(claims@),
            old(execution)@.is_cell(self.object as int),
            forall|x: L| #[trigger] f.requires((x,)),
            forall|x: L, y: Option<L>| #[trigger] f.ensures((x,), y) ==> y == next(x),
        ensures
            match lane_exchanged(
                old(execution)@,
                self.object as int,
                self.shift,
                success,
                failure,
                next,
            ) {
                Ok((e, v)) => r == Ok::<Result<L, L>, Fault>(v) && final(execution)@ == e
                    && e.running(claims@),
                Err(g) => r == Err::<Result<L, L>, Fault>(g),
            },
    {
        let mask: u128 = self.mask();
        let apply = |bits: u128| -> (out: Result<u128, L>)
            ensures
                match next(from_cell::<L>(self.shift, bits)) {
                    Some(new) => out == Ok::<u128, L>(with_lane(self.shift, bits, new)),
                    None => out == Err::<u128, L>(from_cell::<L>(self.shift, bits)),
                },
            {
                let old: L = self.pick(bits);
                match f(old) {
                    Some(new) => Ok((bits & !mask) | (self.place(new) & mask)),
                    None => Err(old),
                }
            };
        match execution.rmw_preserving(claims, self.object, mask, mask, success, failure, apply) {
            Ok(Ok(bits)) => Ok(Ok(self.pick(bits))),
            Ok(Err(old)) => Ok(Err(old)),
            Err(g) => Err(g),
        }
    }

    /// Applies an update to the lane, returning the previous lane value.
    fn fetch(
        &self,
        execution: &mut Execution,
        claims: &Claims,
        order: Order,
        update: Update,
        val: L,
    ) -> (r: Result<L, Fault>)
        requires
            self.fits(),
            old(execution)@.running(claims@),
            old(execution)@.is_cell(self.object as int),
        ensures
            match lane_fetched(
                old(execution)@,
                self.object as int,
                self.shift,
                order,
                update,
                val,
            ) {
                Ok((e, v)) => r == Ok::<L, Fault>(v) && final(execution)@ == e && e.running(claims@),
                Err(f) => r == Err::<L, Fault>(f),
            },
    {
        let ghost next = |old: L| Some(old.updated(update, val));
        let f = |old: L| -> (out: Option<L>)
            ensures
                out == Some(old.updated(update, val)),
            { Some(old.update(update, val)) };
        match self.exchange(execution, claims, order, order, f, Ghost(next)) {
            Ok(Ok(v)) => Ok(v),
            Ok(Err(v)) => Ok(v),
            Err(g) => Err(g),
        }
    }

    /// Lane compare-exchange as one modelled step: the compare consults only
    /// the lane's bits; on success exactly those bits are replaced.
    pub fn compare_exchange(
        &self,
        execution: &mut Execution,
        claims: &Claims,
        current: L,
        new: L,
        success: Order,
        failure: Order,
    ) -> (r: Result<Result<L, L>, Fault>)
        requires
            self.fits(),
            old(execution)@.running(claims@),
            old(execution)@.is_cell(self.object as int),
        ensures
            match lane_exchanged(
                old(execution)@,
                self.object as int,
                self.shift,
                success,
                failure,
                if_equal(current, new),
            ) {
                Ok((e, v)) => r == Ok::<Result<L, L>, Fault>(v) && final(execution)@ == e
                    && e.running(claims@),
                Err(g) => r == Err::<Result<L, L>, Fault>(g),
            },
    {
        let f = |old: L| -> (out: Option<L>)
            ensures
                out == if_equal(current, new)(old),
            {
                if old.is(current) {
                    Some(new)
                } else {
                    None
                }
            };
        self.exchange(execution, claims, success, failure, f, Ghost(if_equal(current, new)))
    }

    /// [`Lane::compare_exchange`]: the weak form is modelled as the strong one.
    pub fn compare_exchange_weak(
        &self,
        execution: &mut Execution,
        claims: &Claims,
        current: L,
        new: L,
        success: Order,
        failure: Order,
    ) -> (r: Result<Result<L, L>, Fault>)
        requires
            self.fits(),
            old(execution)@.running(claims@),
            old(execution)@.is_cell(self.object as int),
        ensures
            match lane_exchanged(
                old(execution)@,
                self.object as int,
                self.shift,
                success,
                failure,
                if_equal(current, new),
            ) {
                Ok((e, v)) => r == Ok::<Result<L, L>, Fault>(v) && final(execution)@ == e
                    && e.running(claims@),
                Err(g) => r == Err::<Result<L, L>, Fault>(g),
            },
    {
        self.compare_exchange(execution, claims, current, new, success, failure)
    }

    /// Stores into the lane, returning the previous lane value.
    pub fn swap(&self, execution: &mut Execution, claims: &Claims, val: L, order: Order) -> (r:
        Result<L, Fault>)
        requires
            self.fits(),
            old(execution)@.running(claims@),
            old(execution)@.is_cell(self.object as int),
        ensures
            match lane_fetched(
                old(execution)@,
                self.object as int,
                self.shift,
                order,
                Update::Swap,
                val,
            ) {
                Ok((e, v)) => r == Ok::<L, Fault>(v) && final(execution)@ == e && e.running(claims@),
                Err(f) => r == Err::<L, Fault>(f),
            },
    {
        self.fetch(execution, claims, order, Update::Swap, val)
    }

    /// Adds to the lane (wrapping at the lane's width), returning the previous
    /// lane value.
    pub fn fetch_add(&self, execution: &mut Execution, claims: &Claims, val: L, order: Order) -> (r:
        Result<L, Fault>)
        requires
            self.fits(),
            old(execution)@.running(claims@),
            old(execution)@.is_cell(self.object as int),
        ensures
            match lane_fetched(
                old(execution)@,
                self.object as int,
                self.shift,
                order,
                Update::Add,
                val,
            ) {
                Ok((e, v)) => r == Ok::<L, Fault>(v) && final(execution)@ == e && e.running(claims@),
                Err(f) => r == Err::<L, Fault>(f),
            },
    {
        self.fetch(execution, claims, order, Update::Add, val)
    }

    /// Subtracts from the lane (wrapping), returning the previous lane value.
    pub fn fetch_sub(&self, execution: &mut Execution, claims: &Claims, val: L, order: Order) -> (r:
        Result<L, Fault>)
        requires
            self.fits(),
            old(execution)@.running(claims@),
            old(execution)@.is_cell(self.object as int),
        ensures
            match lane_fetched(
                old(execution)@,
                self.object as int,
                self.shift,
                order,
                Update::Sub,
                val,
            ) {
                Ok((e, v)) => r == Ok::<L, Fault>(v) && final(execution)@ == e && e.running(claims@),
                Err(f) => r == Err::<L, Fault>(f),
            },
    {
        self.fetch(execution, claims, order, Update::Sub, val)
    }

    /// Bitwise "and" on the lane, returning the previous lane value.
    pub fn fetch_and(&self, execution: &mut Execution, claims: &Claims, val: L, order: Order) -> (r:
        Result<L, Fault>)
        requires
            self.fits(),
            old(execution)@.running(claims@),
            old(execution)@.is_cell(self.object as int),
        ensures
            match lane_fetched(
                old(execution)@,
                self.object as int,
                self.shift,
                order,
                Update::And,
                val,
            ) {
                Ok((e, v)) => r == Ok::<L, Fault>(v) && final(execution)@ == e && e.running(claims@),
                Err(f) => r == Err::<L, Fault>(f),
            },
    {
        self.fetch(execution, claims, order, Update::And, val)
    }

    /// Bitwise "or" on the lane, returning the previous lane value.
    pub fn fetch_or(&self, execution: &mut Execution, claims: &Claims, val: L, order: Order) -> (r:
        Result<L, Fault>)
        requires
            self.fits(),
            old(execution)@.running(claims@),
            old(execution)@.is_cell(self.object as int),
        ensures
            match lane_fetched(
                old(execution)@,
                self.object as int,
                self.shift,
                order,
                Update::Or,
                val,
            ) {
                Ok((e, v)) => r == Ok::<L, Fault>(v) && final(execution)@ == e && e.running(claims@),
                Err(f) => r == Err::<L, Fault>(f),
            },
    {
        self.fetch(execution, claims, order, Update::Or, val)
    }

    /// Bitwise "xor" on the lane, returning the previous lane value.
    pub fn fetch_xor(&self, execution: &mut Execution, claims: &Claims, val: L, order: Order) -> (r:
        Result<L, Fault>)
        requires
            self.fits(),
            old(execution)@.running(claims@),
            old(execution)@.is_cell(self.object as int),
        ensures
            match lane_fetched(
                old(execution)@,
                self.object as int,
                self.shift,
                order,
                Update::Xor,
                val,
            ) {
                Ok((e, v)) => r == Ok::<L, Fault>(v) && final(execution)@ == e && e.running(claims@),
                Err(f) => r == Err::<L, Fault>(f),
            },
    {
        self.fetch(execution, claims, order, Update::Xor, val)
    }

    /// Bitwise "nand" on the lane, returning the previous lane value.
    pub fn fetch_nand(&self, execution: &mut Execution, claims: &Claims, val: L, order: Order) -> (r:
        Result<L, Fault>)
        requires
            self.fits(),
            old(execution)@.running(claims@),
            old(execution)@.is_cell(self.object as int),
        ensures
            match lane_fetched(
                old(execution)@,
                self.object as int,
                self.shift,
                order,
                Update::Nand,
                val,
            ) {
                Ok((e, v)) => r == Ok::<L, Fault>(v) && final(execution)@ == e && e.running(claims@),
                Err(f) => r == Err::<L, Fault>(f),
            },
    {
        self.fetch(execution, claims, order, Update::Nand, val)
    }

    /// Stores the maximum of the lane and `val`, returning the previous lane
    /// value.
    pub fn fetch_max(&self, execution: &mut Execution, claims: &Claims, val: L, order: Order) -> (r:
        Result<L, Fault>)
        requires
            self.fits(),
            old(execution)@.running(claims@),
            old(execution)@.is_cell(self.object as int),
        ensures
            match lane_fetched(
                old(execution)@,
                self.object as int,
                self.shift,
                order,
                Update::Max,
                val,
            ) {
                Ok((e, v)) => r == Ok::<L, Fault>(v) && final(execution)@ == e && e.running(claims@),
                Err(f) => r == Err::<L, Fault>(f),
            },
    {
        self.fetch(execution, claims, order, Update::Max, val)
    }

    /// Stores the minimum of the lane and `val`, returning the previous lane
    /// value.
    pub fn fetch_min(&self, execution: &mut Execution, claims: &Claims, val: L, order: Order) -> (r:
        Result<L, Fault>)
        requires
            self.fits(),
            old(execution)@.running(claims@),
            old(execution)@.is_cell(self.object as int),
        ensures
            match lane_fetched(
                old(execution)@,
                self.object as int,
                self.shift,
                order,
                Update::Min,
                val,
            ) {
                Ok((e, v)) => r == Ok::<L, Fault>(v) && final(execution)@ == e && e.running(claims@),
                Err(f) => r == Err::<L, Fault>(f),
            },
    {
        self.fetch(execution, claims, order, Update::Min, val)
    }
}

/// The place of a 32-bit lane.
pub open spec fn at_dword(shift: u32) -> bool {
    shift == 0 || shift == 32 || shift == 64 || shift == 96
}

/// The place of a 64-bit lane.
pub open spec fn at_qword(shift: u32) -> bool {
    shift == 0 || shift == 64
}

proof fn lemma_dword(a: u32, b: u32, v: u32, bits: u128)
    by (bit_vector)
    requires
        a == 0 || a == 32 || a == 64 || a == 96,
        b == 0 || b == 32 || b == 64 || b == 96,
    ensures
        ((((v as u128) << a) >> a) as u32) == v,
        ((((bits & !(0xffff_ffffu128 << a)) | (((v as u128) << a) & (0xffff_ffffu128 << a))) >> a)
            as u32) == v,
        a != b ==> (0xffff_ffffu128 << a) & (0xffff_ffffu128 << b) == 0,
        a != b ==> ((((bits & !(0xffff_ffffu128 << a)) | (((v as u128) << a) & (0xffff_ffffu128
            << a))) >> b) as u32) == ((bits >> b) as u32),
{
}

proof fn lemma_qword(a: u32, b: u32, v: u64, bits: u128)
    by (bit_vector)
    requires
        a == 0 || a == 64,
        b == 0 || b == 64,
    ensures
        ((((v as u128) << a) >> a) as u64) == v,
        ((((bits & !(0xffff_ffff_ffff_ffffu128 << a)) | (((v as u128) << a)
            & (0xffff_ffff_ffff_ffffu128 << a))) >> a) as u64) == v,
        a != b ==> (0xffff_ffff_ffff_ffffu128 << a) & (0xffff_ffff_ffff_ffffu128 << b) == 0,
        a != b ==> ((((bits & !(0xffff_ffff_ffff_ffffu128 << a)) | (((v as u128) << a)
            & (0xffff_ffff_ffff_ffffu128 << a))) >> b) as u64) == ((bits >> b) as u64),
{
}

/// What a 32-bit lane was given is what it gives back, whatever the rest of
/// the cell holds.
pub proof fn dword_reads_back(shift: u32, bits: u128, v: u32)
    requires
        at_dword(shift),
    ensures
        from_cell::<u32>(shift, to_cell(shift, v)) == v,
        from_cell::<u32>(shift, with_lane(shift, bits, v)) == v,
{
    lemma_dword(shift, shift, v, bits);
}

/// What a 64-bit lane was given is what it gives back, whatever the rest of
/// the cell holds.
pub proof fn qword_reads_back(shift: u32, bits: u128, v: u64)
    requires
        at_qword(shift),
    ensures
        from_cell::<u64>(shift, to_cell(shift, v)) == v,
        from_cell::<u64>(shift, with_lane(shift, bits, v)) == v,
{
    lemma_qword(shift, shift, v, bits);
}

/// Different 32-bit lanes share no bit, and writing one leaves the other as it
/// was.
pub proof fn dwords_are_isolated(a: u32, b: u32, bits: u128, v: u32)
    requires
        at_dword(a),
        at_dword(b),
        a != b,
    ensures
        lane_mask::<u32>(a) & lane_mask::<u32>(b) == 0,
        from_cell::<u32>(b, with_lane(a, bits, v)) == from_cell::<u32>(b, bits),
{
    lemma_dword(a, b, v, bits);
}

/// The two 64-bit lanes share no bit, and writing one leaves the other as it
/// was.
pub proof fn qwords_are_isolated(a: u32, b: u32, bits: u128, v: u64)
    requires
        at_qword(a),
        at_qword(b),
        a != b,
    ensures
        lane_mask::<u64>(a) & lane_mask::<u64>(b) == 0,
        from_cell::<u64>(b, with_lane(a, bits, v)) == from_cell::<u64>(b, bits),
{
    lemma_qword(a, b, v, bits);
}

/// The aligned lanes are where the reading and the isolation of lanes were
/// shown.
pub proof fn aligned_lanes_have_a_place(byte_offset: usize)
    ensures
        Lane::<u32, 16>::aligned(byte_offset) ==> at_dword((byte_offset * 8) as u32),
        Lane::<u64, 16>::aligned(byte_offset) ==> at_qword((byte_offset * 8) as u32),
        Lane::<u32, 8>::aligned(byte_offset) ==> at_dword((byte_offset * 8) as u32),
{
}

/// A 64-bit lane is made of the two 32-bit lanes in its place, the lower one
/// first.
pub proof fn a_qword_is_two_dwords(shift: u32, bits: u128)
    requires
        at_qword(shift),
    ensures
        from_cell::<u64>(shift, bits) == from_cell::<u32>(shift, bits) + 0x1_0000_0000
            * from_cell::<u32>((shift + 32) as u32, bits),
        lane_mask::<u64>(shift) == lane_mask::<u32>(shift) | lane_mask::<u32>(
            (shift + 32) as u32,
        ),
{
    lemma_halves(shift, (shift + 32) as u32, bits);
}

proof fn lemma_halves(shift: u32, high: u32, bits: u128)
    by (bit_vector)
    requires
        shift == 0 || shift == 64,
        high == shift + 32,
    ensures
        ((bits >> shift) as u64) as u128 == (((bits >> shift) as u32) as u128) + 0x1_0000_0000u128
            * (((bits >> high) as u32) as u128),
        0xffff_ffff_ffff_ffffu128 << shift == (0xffff_ffffu128 << shift) | (0xffff_ffffu128
            << high),
{
}

/// What a read-modify-write of a lane leaves in the cell: the lane holds the
/// new value, where there is one, and the other bits are as they were. Either
/// way it returns the value that it found in the lane.
pub proof fn a_lane_exchange_writes_its_lane<L: LaneInt>(
    e: ExecModel,
    c: Seq<Frozen>,
    object: int,
    shift: u32,
    success: Order,
    failure: Order,
    next: spec_fn(L) -> Option<L>,
)
    requires
        e.running(c),
        e.is_cell(object),
        e.cell(object).partitioned(lane_mask::<L>(shift)).partitioned(
            lane_mask::<L>(shift),
        ).regions.len() <= usize::MAX,
    ensures
        lane_exchanged(e, object, shift, success, failure, next) matches Ok((n, r)) ==> match r {
            Ok(old) => next(old) matches Some(new) && n.cell(object).value() == with_lane(
                shift,
                e.cell(object).value(),
                new,
            ),
            Err(old) => next(old) is None && n.cell(object).value() == e.cell(object).value(),
        },
{
    if let Ok((n, r)) = lane_exchanged(e, object, shift, success, failure, next) {
        let mask = lane_mask::<L>(shift);
        let half = e.rmw_begun(object, mask, mask, success, failure)->Ok_0;
        let old = from_cell::<L>(shift, half.value);
        let new = match next(old) {
            Some(new) => new,
            None => old,
        };
        let bits = with_lane(shift, half.value, new);
        assert(e.objects[object].wf());
        a_rmw_writes_its_bits_alone(e, object, mask, mask, success, failure, bits);
        lemma_masked(half.value, to_cell(shift, new), mask);
    }
}

proof fn lemma_masked(bits: u128, v: u128, mask: u128)
    by (bit_vector)
    ensures
        ((bits & !mask) | (v & mask)) & mask == v & mask,
{
}

/// The fetching updates of a lane leave in it what they do in an integer of its
/// own.
pub proof fn a_lane_fetch_updates_its_lane<L: LaneInt>(
    e: ExecModel,
    c: Seq<Frozen>,
    object: int,
    shift: u32,
    order: Order,
    update: Update,
    val: L,
)
    requires
        e.running(c),
        e.is_cell(object),
        e.cell(object).partitioned(lane_mask::<L>(shift)).partitioned(
            lane_mask::<L>(shift),
        ).regions.len() <= usize::MAX,
    ensures
        lane_fetched(e, object, shift, order, update, val) matches Ok((n, old)) ==> n.cell(
            object,
        ).value() == with_lane(shift, e.cell(object).value(), old.updated(update, val)),
{
    let next = |old: L| Some(old.updated(update, val));
    a_lane_exchange_writes_its_lane(e, c, object, shift, order, order, next);
    if let Ok((n, old)) = lane_fetched(e, object, shift, order, update, val) {
        assert(next(old) == Some(old.updated(update, val)));
    }
}

} // verus!
