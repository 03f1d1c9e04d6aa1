//! Integers as the bits of a cell.
use vstd::arithmetic::div_mod::{lemma_mod_equivalence, lemma_mod_multiples_vanish};
use vstd::prelude::*;

verus! {

/// How a read-modify-write changes the value.
#[derive(Debug, Clone, Copy, PartialEq, Eq, Structural)]
pub enum Update {
    /// The operand replaces the value.
    Swap,
    /// The sum, wrapping at the width of the type.
    Add,
    /// The difference, wrapping at the width of the type.
    Sub,
    /// Bitwise "and".
    And,
    /// Bitwise "nand".
    Nand,
    /// Bitwise "or".
    Or,
    /// Bitwise "xor".
    Xor,
    /// The larger of the value and the operand.
    Max,
    /// The smaller of the value and the operand.
    Min,
}

/// Bit `i` of the cell is set.
pub open spec fn bit(bits: u128, i: u32) -> bool {
    (bits >> i) & 1 == 1
}

/// The two integers differ by a multiple of `modulus`.
pub open spec fn congruent(a: int, b: int, modulus: int) -> bool {
    (a - b) % modulus == 0
}

/// An integer that an atomic cell can hold. Signed integers are held
/// sign-extended.
pub trait Numeric: Copy {
    /// The bits that stand for the integer.
    spec fn to_bits(self) -> u128;

    /// The integer that the bits stand for.
    spec fn of_bits(bits: u128) -> Self;

    /// The integer after an update with the operand `val`.
    spec fn updated(self, update: Update, val: Self) -> Self;

    /// The integer as a mathematical one.
    spec fn number(self) -> int;

    /// How many bits the type has.
    spec fn bit_count() -> u32;

    /// Two to the width of the type, at which sums and differences wrap.
    spec fn modulus() -> int;

    /// An integer comes back from its bits.
    proof fn round_trip(self)
        ensures
            Self::of_bits(self.to_bits()) == self,
    ;

    /// What a cell holds: the number, and where that is negative the number
    /// up to the modulus of the whole cell; and back, the number that the low
    /// bits make.
    proof fn held(self, bits: u128)
        ensures
            self.number() >= 0 ==> self.to_bits() == self.number(),
            self.number() < 0 ==> self.to_bits() == self.number() + u128::MAX + 1,
            congruent(Self::of_bits(bits).number(), bits as int, Self::modulus()),
    ;

    /// What every update does: the sum and the difference are those of the
    /// numbers up to a multiple of the modulus, and each undoes the other; the
    /// bitwise updates go bit by bit; and the extremes are the bound and one
    /// of the two.
    proof fn updates(self, val: Self, i: u32)
        ensures
            self.updated(Update::Swap, val) == val,
            congruent(
                self.updated(Update::Add, val).number(),
                self.number() + val.number(),
                Self::modulus(),
            ),
            congruent(
                self.updated(Update::Sub, val).number(),
                self.number() - val.number(),
                Self::modulus(),
            ),
            self.updated(Update::Add, val).updated(Update::Sub, val) == self,
            self.updated(Update::Sub, val).updated(Update::Add, val) == self,
            i < Self::bit_count() ==> {
                let (a, b) = (bit(self.to_bits(), i), bit(val.to_bits(), i));
                &&& bit(self.updated(Update::And, val).to_bits(), i) == (a && b)
                &&& bit(self.updated(Update::Nand, val).to_bits(), i) == !(a && b)
                &&& bit(self.updated(Update::Or, val).to_bits(), i) == (a || b)
                &&& bit(self.updated(Update::Xor, val).to_bits(), i) == (a != b)
            },
            ({
                let max = self.updated(Update::Max, val);
                &&& max == self || max == val
                &&& max.number() >= self.number()
                &&& max.number() >= val.number()
            }),
            ({
                let min = self.updated(Update::Min, val);
                &&& min == self || min == val
                &&& min.number() <= self.number()
                &&& min.number() <= val.number()
            }),
    ;

    fn into_u128(self) -> (r: u128)
        ensures
            r == self.to_bits(),
    ;

    fn from_u128(bits: u128) -> (r: Self)
        ensures
            r == Self::of_bits(bits),
    ;

    fn is(self, other: Self) -> (r: bool)
        ensures
            r == (self == other),
    ;

    fn update(self, update: Update, val: Self) -> (r: Self)
        ensures
            r == self.updated(update, val),
    ;
}

/// Sign extension to the whole cell is undone by truncation.
proof fn lemma_sign_extension(a: i8, b: i16, c: i32, d: i64, e: isize, f: i128)
    by (bit_vector)
    ensures
        a < 0 ==> (a as u128) == 0xffff_ffff_ffff_ffff_ffff_ffff_ffff_ffffu128 - ((-1 - a) as u128),
        b < 0 ==> (b as u128) == 0xffff_ffff_ffff_ffff_ffff_ffff_ffff_ffffu128 - ((-1 - b) as u128),
        c < 0 ==> (c as u128) == 0xffff_ffff_ffff_ffff_ffff_ffff_ffff_ffffu128 - ((-1 - c) as u128),
        d < 0 ==> (d as u128) == 0xffff_ffff_ffff_ffff_ffff_ffff_ffff_ffffu128 - ((-1 - d) as u128),
        e < 0 ==> (e as u128) == 0xffff_ffff_ffff_ffff_ffff_ffff_ffff_ffffu128 - ((-1 - e) as u128),
        f < 0 ==> (f as u128) == 0xffff_ffff_ffff_ffff_ffff_ffff_ffff_ffffu128 - ((-1 - f) as u128),
        (a as u128) as i8 == a,
        (b as u128) as i16 == b,
        (c as u128) as i32 == c,
        (d as u128) as i64 == d,
        (e as u128) as isize == e,
        (f as u128) as i128 == f,
{
}

/// The bits of a bitwise update are those of its operands.
proof fn lemma_bitwise(
    a_u8: u8,
    b_u8: u8,
    a_u16: u16,
    b_u16: u16,
    a_u32: u32,
    b_u32: u32,
    a_u64: u64,
    b_u64: u64,
    a_usize: usize,
    b_usize: usize,
    a_u128: u128,
    b_u128: u128,
    a_i8: i8,
    b_i8: i8,
    a_i16: i16,
    b_i16: i16,
    a_i32: i32,
    b_i32: i32,
    a_i64: i64,
    b_i64: i64,
    a_isize: isize,
    b_isize: isize,
    a_i128: i128,
    b_i128: i128,
)
    by (bit_vector)
    ensures
        (a_u8 & b_u8) as u128 == (a_u8 as u128) & (b_u8 as u128),
        (a_u8 | b_u8) as u128 == (a_u8 as u128) | (b_u8 as u128),
        (a_u8 ^ b_u8) as u128 == (a_u8 as u128) ^ (b_u8 as u128),
        !(a_u8 & b_u8) as u128 == !((a_u8 as u128) & (b_u8 as u128)) & 0xffu128,
        (a_u16 & b_u16) as u128 == (a_u16 as u128) & (b_u16 as u128),
        (a_u16 | b_u16) as u128 == (a_u16 as u128) | (b_u16 as u128),
        (a_u16 ^ b_u16) as u128 == (a_u16 as u128) ^ (b_u16 as u128),
        !(a_u16 & b_u16) as u128 == !((a_u16 as u128) & (b_u16 as u128)) & 0xffffu128,
        (a_u32 & b_u32) as u128 == (a_u32 as u128) & (b_u32 as u128),
        (a_u32 | b_u32) as u128 == (a_u32 as u128) | (b_u32 as u128),
        (a_u32 ^ b_u32) as u128 == (a_u32 as u128) ^ (b_u32 as u128),
        !(a_u32 & b_u32) as u128 == !((a_u32 as u128) & (b_u32 as u128)) & 0xffff_ffffu128,
        (a_u64 & b_u64) as u128 == (a_u64 as u128) & (b_u64 as u128),
        (a_u64 | b_u64) as u128 == (a_u64 as u128) | (b_u64 as u128),
        (a_u64 ^ b_u64) as u128 == (a_u64 as u128) ^ (b_u64 as u128),
        !(a_u64 & b_u64) as u128 == !((a_u64 as u128) & (b_u64 as u128)) & 0xffff_ffff_ffff_ffffu128,
        (a_usize & b_usize) as u128 == (a_usize as u128) & (b_usize as u128),
        (a_usize | b_usize) as u128 == (a_usize as u128) | (b_usize as u128),
        (a_usize ^ b_usize) as u128 == (a_usize as u128) ^ (b_usize as u128),
        !(a_usize & b_usize) as u128 == !((a_usize as u128) & (b_usize as u128)) & (!0usize
            as u128),
        (a_usize as u128) <= (!0usize as u128),
        (!0usize as u128) == 0xffff_ffffu128 || (!0usize as u128) == 0xffff_ffff_ffff_ffffu128,
        (a_u128 & b_u128) as u128 == (a_u128 as u128) & (b_u128 as u128),
        (a_u128 | b_u128) as u128 == (a_u128 as u128) | (b_u128 as u128),
        (a_u128 ^ b_u128) as u128 == (a_u128 as u128) ^ (b_u128 as u128),
        !(a_u128 & b_u128) as u128 == !((a_u128 as u128) & (b_u128 as u128)),
        (a_i8 & b_i8) as u128 == (a_i8 as u128) & (b_i8 as u128),
        (a_i8 | b_i8) as u128 == (a_i8 as u128) | (b_i8 as u128),
        (a_i8 ^ b_i8) as u128 == (a_i8 as u128) ^ (b_i8 as u128),
        !(a_i8 & b_i8) as u128 == !((a_i8 as u128) & (b_i8 as u128)),
        (a_i16 & b_i16) as u128 == (a_i16 as u128) & (b_i16 as u128),
        (a_i16 | b_i16) as u128 == (a_i16 as u128) | (b_i16 as u128),
        (a_i16 ^ b_i16) as u128 == (a_i16 as u128) ^ (b_i16 as u128),
        !(a_i16 & b_i16) as u128 == !((a_i16 as u128) & (b_i16 as u128)),
        (a_i32 & b_i32) as u128 == (a_i32 as u128) & (b_i32 as u128),
        (a_i32 | b_i32) as u128 == (a_i32 as u128) | (b_i32 as u128),
        (a_i32 ^ b_i32) as u128 == (a_i32 as u128) ^ (b_i32 as u128),
        !(a_i32 & b_i32) as u128 == !((a_i32 as u128) & (b_i32 as u128)),
        (a_i64 & b_i64) as u128 == (a_i64 as u128) & (b_i64 as u128),
        (a_i64 | b_i64) as u128 == (a_i64 as u128) | (b_i64 as u128),
        (a_i64 ^ b_i64) as u128 == (a_i64 as u128) ^ (b_i64 as u128),
        !(a_i64 & b_i64) as u128 == !((a_i64 as u128) & (b_i64 as u128)),
        (a_isize & b_isize) as u128 == (a_isize as u128) & (b_isize as u128),
        (a_isize | b_isize) as u128 == (a_isize as u128) | (b_isize as u128),
        (a_isize ^ b_isize) as u128 == (a_isize as u128) ^ (b_isize as u128),
        !(a_isize & b_isize) as u128 == !((a_isize as u128) & (b_isize as u128)),
        (a_i128 & b_i128) as u128 == (a_i128 as u128) & (b_i128 as u128),
        (a_i128 | b_i128) as u128 == (a_i128 as u128) | (b_i128 as u128),
        (a_i128 ^ b_i128) as u128 == (a_i128 as u128) ^ (b_i128 as u128),
        !(a_i128 & b_i128) as u128 == !((a_i128 as u128) & (b_i128 as u128)),
{
}

/// The bits of a bitwise update, one by one.
proof fn lemma_bits(a: u128, b: u128, i: u32)
    by (bit_vector)
    requires
        i < 128,
    ensures
        ((a & b) >> i) & 1 == 1 <==> (a >> i) & 1 == 1 && (b >> i) & 1 == 1,
        ((a | b) >> i) & 1 == 1 <==> (a >> i) & 1 == 1 || (b >> i) & 1 == 1,
        ((a ^ b) >> i) & 1 == 1 <==> ((a >> i) & 1 == 1) != ((b >> i) & 1 == 1),
        (!a >> i) & 1 == 1 <==> !((a >> i) & 1 == 1),
        (a as u8) as u128 == a % 0x100u128,
        ((a as i8) as u128) % 0x100u128 == a % 0x100u128,
        (a as u16) as u128 == a % 0x1_0000u128,
        ((a as i16) as u128) % 0x1_0000u128 == a % 0x1_0000u128,
        (a as u32) as u128 == a % 0x1_0000_0000u128,
        ((a as i32) as u128) % 0x1_0000_0000u128 == a % 0x1_0000_0000u128,
        (a as u64) as u128 == a % 0x1_0000_0000_0000_0000u128,
        ((a as i64) as u128) % 0x1_0000_0000_0000_0000u128 == a % 0x1_0000_0000_0000_0000u128,
        (a as usize) as u128 == a & (!0usize as u128),
        ((a as isize) as u128) & (!0usize as u128) == a & (!0usize as u128),
        a & 0xffff_ffffu128 == a % 0x1_0000_0000u128,
        a & 0xffff_ffff_ffff_ffffu128 == a % 0x1_0000_0000_0000_0000u128,
        (a as i128) as u128 == a,
        i < 8 ==> ((a & 0xffu128) >> i) & 1 == (a >> i) & 1,
        i < 16 ==> ((a & 0xffffu128) >> i) & 1 == (a >> i) & 1,
        i < 32 ==> ((a & 0xffff_ffffu128) >> i) & 1 == (a >> i) & 1,
        i < 64 ==> ((a & 0xffff_ffff_ffff_ffffu128) >> i) & 1 == (a >> i) & 1,
{
}

proof fn lemma_congruent(a: int, b: int, modulus: int)
    requires
        modulus > 0,
        a % modulus == b % modulus,
    ensures
        congruent(a, b, modulus),
{
    lemma_mod_equivalence(a, b, modulus);
}

/// A negative number leaves the same remainder where it is wrapped.
proof fn lemma_wrapped(a: int, modulus: int, times: int)
    requires
        modulus > 0,
    ensures
        (a + modulus * times) % modulus == a % modulus,
{
    lemma_mod_multiples_vanish(times, a, modulus);
}

impl Numeric for u8 {
    open spec fn to_bits(self) -> u128 {
        self as u128
    }

    open spec fn of_bits(bits: u128) -> u8 {
        bits as u8
    }

    open spec fn updated(self, update: Update, val: u8) -> u8 {
        match update {
            Update::Swap => val,
            Update::Add => self.wrapping_add(val),
            Update::Sub => self.wrapping_sub(val),
            Update::And => self & val,
            Update::Nand => !(self & val),
            Update::Or => self | val,
            Update::Xor => self ^ val,
            Update::Max => if val > self {
                val
            } else {
                self
            },
            Update::Min => if val < self {
                val
            } else {
                self
            },
        }
    }

    open spec fn number(self) -> int {
        self as int
    }

    open spec fn bit_count() -> u32 {
        u8::BITS
    }

    open spec fn modulus() -> int {
        u8::MAX + 1
    }

    proof fn round_trip(self) {
    }

    proof fn held(self, bits: u128) {
        let v = bits as u8;
        assert(v as u128 == bits % 0x100) by {
            lemma_bits(bits, 0, 0);
        }
        lemma_congruent(v as int, bits as int, 0x100);
    }

    proof fn updates(self, val: u8, i: u32) {
        lemma_bitwise(self, val, 0, 0, 0, 0, 0, 0, 0, 0, 0, 0, 0, 0, 0, 0, 0, 0, 0, 0, 0, 0, 0, 0);
        if i < u8::BITS {
            lemma_bits(self as u128, val as u128, i);
            lemma_bits((self as u128) & (val as u128), 0, i);
            lemma_bits(!((self as u128) & (val as u128)), 0, i);
        }
    }

    fn into_u128(self) -> (r: u128) {
        self as u128
    }

    fn from_u128(bits: u128) -> (r: u8) {
        bits as u8
    }

    fn is(self, other: u8) -> (r: bool) {
        self == other
    }

    fn update(self, update: Update, val: u8) -> (r: u8) {
        match update {
            Update::Swap => val,
            Update::Add => self.wrapping_add(val),
            Update::Sub => self.wrapping_sub(val),
            Update::And => self & val,
            Update::Nand => !(self & val),
            Update::Or => self | val,
            Update::Xor => self ^ val,
            Update::Max => if val > self {
                val
            } else {
                self
            },
            Update::Min => if val < self {
                val
            } else {
                self
            },
        }
    }
}

impl Numeric for u16 {
    open spec fn to_bits(self) -> u128 {
        self as u128
    }

    open spec fn of_bits(bits: u128) -> u16 {
        bits as u16
    }

    open spec fn updated(self, update: Update, val: u16) -> u16 {
        match update {
            Update::Swap => val,
            Update::Add => self.wrapping_add(val),
            Update::Sub => self.wrapping_sub(val),
            Update::And => self & val,
            Update::Nand => !(self & val),
            Update::Or => self | val,
            Update::Xor => self ^ val,
            Update::Max => if val > self {
                val
            } else {
                self
            },
            Update::Min => if val < self {
                val
            } else {
                self
            },
        }
    }

    open spec fn number(self) -> int {
        self as int
    }

    open spec fn bit_count() -> u32 {
        u16::BITS
    }

    open spec fn modulus() -> int {
        u16::MAX + 1
    }

    proof fn round_trip(self) {
    }

    proof fn held(self, bits: u128) {
        let v = bits as u16;
        assert(v as u128 == bits % 0x1_0000) by {
            lemma_bits(bits, 0, 0);
        }
        lemma_congruent(v as int, bits as int, 0x1_0000);
    }

    proof fn updates(self, val: u16, i: u32) {
        lemma_bitwise(0, 0, self, val, 0, 0, 0, 0, 0, 0, 0, 0, 0, 0, 0, 0, 0, 0, 0, 0, 0, 0, 0, 0);
        if i < u16::BITS {
            lemma_bits(self as u128, val as u128, i);
            lemma_bits((self as u128) & (val as u128), 0, i);
            lemma_bits(!((self as u128) & (val as u128)), 0, i);
        }
    }

    fn into_u128(self) -> (r: u128) {
        self as u128
    }

    fn from_u128(bits: u128) -> (r: u16) {
        bits as u16
    }

    fn is(self, other: u16) -> (r: bool) {
        self == other
    }

    fn update(self, update: Update, val: u16) -> (r: u16) {
        match update {
            Update::Swap => val,
            Update::Add => self.wrapping_add(val),
            Update::Sub => self.wrapping_sub(val),
            Update::And => self & val,
            Update::Nand => !(self & val),
            Update::Or => self | val,
            Update::Xor => self ^ val,
            Update::Max => if val > self {
                val
            } else {
                self
            },
            Update::Min => if val < self {
                val
            } else {
                self
            },
        }
    }
}

impl Numeric for u32 {
    open spec fn to_bits(self) -> u128 {
        self as u128
    }

    open spec fn of_bits(bits: u128) -> u32 {
        bits as u32
    }

    open spec fn updated(self, update: Update, val: u32) -> u32 {
        match update {
            Update::Swap => val,
            Update::Add => self.wrapping_add(val),
            Update::Sub => self.wrapping_sub(val),
            Update::And => self & val,
            Update::Nand => !(self & val),
            Update::Or => self | val,
            Update::Xor => self ^ val,
            Update::Max => if val > self {
                val
            } else {
                self
            },
            Update::Min => if val < self {
                val
            } else {
                self
            },
        }
    }

    open spec fn number(self) -> int {
        self as int
    }

    open spec fn bit_count() -> u32 {
        u32::BITS
    }

    open spec fn modulus() -> int {
        u32::MAX + 1
    }

    proof fn round_trip(self) {
    }

    proof fn held(self, bits: u128) {
        let v = bits as u32;
        assert(v as u128 == bits % 0x1_0000_0000) by {
            lemma_bits(bits, 0, 0);
        }
        lemma_congruent(v as int, bits as int, 0x1_0000_0000);
    }

    proof fn updates(self, val: u32, i: u32) {
        lemma_bitwise(0, 0, 0, 0, self, val, 0, 0, 0, 0, 0, 0, 0, 0, 0, 0, 0, 0, 0, 0, 0, 0, 0, 0);
        if i < u32::BITS {
            lemma_bits(self as u128, val as u128, i);
            lemma_bits((self as u128) & (val as u128), 0, i);
            lemma_bits(!((self as u128) & (val as u128)), 0, i);
        }
    }

    fn into_u128(self) -> (r: u128) {
        self as u128
    }

    fn from_u128(bits: u128) -> (r: u32) {
        bits as u32
    }

    fn is(self, other: u32) -> (r: bool) {
        self == other
    }

    fn update(self, update: Update, val: u32) -> (r: u32) {
        match update {
            Update::Swap => val,
            Update::Add => self.wrapping_add(val),
            Update::Sub => self.wrapping_sub(val),
            Update::And => self & val,
            Update::Nand => !(self & val),
            Update::Or => self | val,
            Update::Xor => self ^ val,
            Update::Max => if val > self {
                val
            } else {
                self
            },
            Update::Min => if val < self {
                val
            } else {
                self
            },
        }
    }
}

impl Numeric for u64 {
    open spec fn to_bits(self) -> u128 {
        self as u128
    }

    open spec fn of_bits(bits: u128) -> u64 {
        bits as u64
    }

    open spec fn updated(self, update: Update, val: u64) -> u64 {
        match update {
            Update::Swap => val,
            Update::Add => self.wrapping_add(val),
            Update::Sub => self.wrapping_sub(val),
            Update::And => self & val,
            Update::Nand => !(self & val),
            Update::Or => self | val,
            Update::Xor => self ^ val,
            Update::Max => if val > self {
                val
            } else {
                self
            },
            Update::Min => if val < self {
                val
            } else {
                self
            },
        }
    }

    open spec fn number(self) -> int {
        self as int
    }

    open spec fn bit_count() -> u32 {
        u64::BITS
    }

    open spec fn modulus() -> int {
        u64::MAX + 1
    }

    proof fn round_trip(self) {
    }

    proof fn held(self, bits: u128) {
        let v = bits as u64;
        assert(v as u128 == bits % 0x1_0000_0000_0000_0000) by {
            lemma_bits(bits, 0, 0);
        }
        lemma_congruent(v as int, bits as int, 0x1_0000_0000_0000_0000);
    }

    proof fn updates(self, val: u64, i: u32) {
        lemma_bitwise(0, 0, 0, 0, 0, 0, self, val, 0, 0, 0, 0, 0, 0, 0, 0, 0, 0, 0, 0, 0, 0, 0, 0);
        if i < u64::BITS {
            lemma_bits(self as u128, val as u128, i);
            lemma_bits((self as u128) & (val as u128), 0, i);
            lemma_bits(!((self as u128) & (val as u128)), 0, i);
        }
    }

    fn into_u128(self) -> (r: u128) {
        self as u128
    }

    fn from_u128(bits: u128) -> (r: u64) {
        bits as u64
    }

    fn is(self, other: u64) -> (r: bool) {
        self == other
    }

    fn update(self, update: Update, val: u64) -> (r: u64) {
        match update {
            Update::Swap => val,
            Update::Add => self.wrapping_add(val),
            Update::Sub => self.wrapping_sub(val),
            Update::And => self & val,
            Update::Nand => !(self & val),
            Update::Or => self | val,
            Update::Xor => self ^ val,
            Update::Max => if val > self {
                val
            } else {
                self
            },
            Update::Min => if val < self {
                val
            } else {
                self
            },
        }
    }
}

impl Numeric for usize {
    open spec fn to_bits(self) -> u128 {
        self as u128
    }

    open spec fn of_bits(bits: u128) -> usize {
        bits as usize
    }

    open spec fn updated(self, update: Update, val: usize) -> usize {
        match update {
            Update::Swap => val,
            Update::Add => self.wrapping_add(val),
            Update::Sub => self.wrapping_sub(val),
            Update::And => self & val,
            Update::Nand => !(self & val),
            Update::Or => self | val,
            Update::Xor => self ^ val,
            Update::Max => if val > self {
                val
            } else {
                self
            },
            Update::Min => if val < self {
                val
            } else {
                self
            },
        }
    }

    open spec fn number(self) -> int {
        self as int
    }

    open spec fn bit_count() -> u32 {
        usize::BITS
    }

    open spec fn modulus() -> int {
        usize::MAX + 1
    }

    proof fn round_trip(self) {
    }

    proof fn held(self, bits: u128) {
        let v = bits as usize;
        assert(v as int == bits as int % (usize::MAX + 1)) by {
            lemma_bits(bits, 0, 0);
            lemma_bits(v as u128, 0, 0);
            lemma_bitwise(
                0, 0, 0, 0, 0, 0, 0, 0, usize::MAX, 0, 0, 0, 0, 0, 0, 0, 0, 0, 0, 0, 0, 0, 0, 0,
            );
        }
        lemma_congruent(v as int, bits as int, usize::MAX + 1);
    }

    proof fn updates(self, val: usize, i: u32) {
        lemma_bitwise(0, 0, 0, 0, 0, 0, 0, 0, self, val, 0, 0, 0, 0, 0, 0, 0, 0, 0, 0, 0, 0, 0, 0);
        lemma_bitwise(
            0, 0, 0, 0, 0, 0, 0, 0, usize::MAX, 0, 0, 0, 0, 0, 0, 0, 0, 0, 0, 0, 0, 0, 0, 0,
        );
        if i < usize::BITS {
            lemma_bits(self as u128, val as u128, i);
            lemma_bits((self as u128) & (val as u128), 0, i);
            lemma_bits(!((self as u128) & (val as u128)), 0, i);
        }
    }

    fn into_u128(self) -> (r: u128) {
        self as u128
    }

    fn from_u128(bits: u128) -> (r: usize) {
        bits as usize
    }

    fn is(self, other: usize) -> (r: bool) {
        self == other
    }

    fn update(self, update: Update, val: usize) -> (r: usize) {
        match update {
            Update::Swap => val,
            Update::Add => self.wrapping_add(val),
            Update::Sub => self.wrapping_sub(val),
            Update::And => self & val,
            Update::Nand => !(self & val),
            Update::Or => self | val,
            Update::Xor => self ^ val,
            Update::Max => if val > self {
                val
            } else {
                self
            },
            Update::Min => if val < self {
                val
            } else {
                self
            },
        }
    }
}

impl Numeric for u128 {
    open spec fn to_bits(self) -> u128 {
        self
    }

    open spec fn of_bits(bits: u128) -> u128 {
        bits
    }

    open spec fn updated(self, update: Update, val: u128) -> u128 {
        match update {
            Update::Swap => val,
            Update::Add => self.wrapping_add(val),
            Update::Sub => self.wrapping_sub(val),
            Update::And => self & val,
            Update::Nand => !(self & val),
            Update::Or => self | val,
            Update::Xor => self ^ val,
            Update::Max => if val > self {
                val
            } else {
                self
            },
            Update::Min => if val < self {
                val
            } else {
                self
            },
        }
    }

    open spec fn number(self) -> int {
        self as int
    }

    open spec fn bit_count() -> u32 {
        u128::BITS
    }

    open spec fn modulus() -> int {
        u128::MAX + 1
    }

    proof fn round_trip(self) {
    }

    proof fn held(self, bits: u128) {
    }

    proof fn updates(self, val: u128, i: u32) {
        lemma_bitwise(0, 0, 0, 0, 0, 0, 0, 0, 0, 0, self, val, 0, 0, 0, 0, 0, 0, 0, 0, 0, 0, 0, 0);
        if i < u128::BITS {
            lemma_bits(self as u128, val as u128, i);
            lemma_bits((self as u128) & (val as u128), 0, i);
            lemma_bits(!((self as u128) & (val as u128)), 0, i);
        }
    }

    fn into_u128(self) -> (r: u128) {
        self
    }

    fn from_u128(bits: u128) -> (r: u128) {
        bits
    }

    fn is(self, other: u128) -> (r: bool) {
        self == other
    }

    fn update(self, update: Update, val: u128) -> (r: u128) {
        match update {
            Update::Swap => val,
            Update::Add => self.wrapping_add(val),
            Update::Sub => self.wrapping_sub(val),
            Update::And => self & val,
            Update::Nand => !(self & val),
            Update::Or => self | val,
            Update::Xor => self ^ val,
            Update::Max => if val > self {
                val
            } else {
                self
            },
            Update::Min => if val < self {
                val
            } else {
                self
            },
        }
    }
}

impl Numeric for i8 {
    open spec fn to_bits(self) -> u128 {
        self as u128
    }

    open spec fn of_bits(bits: u128) -> i8 {
        bits as i8
    }

    open spec fn updated(self, update: Update, val: i8) -> i8 {
        match update {
            Update::Swap => val,
            Update::Add => self.wrapping_add(val),
            Update::Sub => self.wrapping_sub(val),
            Update::And => self & val,
            Update::Nand => !(self & val),
            Update::Or => self | val,
            Update::Xor => self ^ val,
            Update::Max => if val > self {
                val
            } else {
                self
            },
            Update::Min => if val < self {
                val
            } else {
                self
            },
        }
    }

    open spec fn number(self) -> int {
        self as int
    }

    open spec fn bit_count() -> u32 {
        i8::BITS
    }

    open spec fn modulus() -> int {
        u8::MAX + 1
    }

    proof fn round_trip(self) {
        lemma_sign_extension(self, 0, 0, 0, 0, 0);
    }

    proof fn held(self, bits: u128) {
        let v = bits as i8;
        assert(self < 0 ==> self as u128 == u128::MAX - (-1 - self)) by {
            lemma_sign_extension(self, 0, 0, 0, 0, 0);
        }
        assert(v < 0 ==> v as u128 == u128::MAX - (-1 - v)) by {
            lemma_sign_extension(v, 0, 0, 0, 0, 0);
        }
        assert((v as u128) % 0x100 == bits % 0x100) by {
            lemma_bits(bits, 0, 0);
        }
        if v < 0 {
            lemma_wrapped(v as int, 0x100, 0x1_0000_0000_0000_0000_0000_0000_0000_00);
        }
        lemma_congruent(v as int, bits as int, 0x100);
    }

    proof fn updates(self, val: i8, i: u32) {
        lemma_bitwise(0, 0, 0, 0, 0, 0, 0, 0, 0, 0, 0, 0, self, val, 0, 0, 0, 0, 0, 0, 0, 0, 0, 0);
        if i < i8::BITS {
            lemma_bits(self as u128, val as u128, i);
            lemma_bits((self as u128) & (val as u128), 0, i);
            lemma_bits(!((self as u128) & (val as u128)), 0, i);
        }
    }

    fn into_u128(self) -> (r: u128) {
        self as u128
    }

    fn from_u128(bits: u128) -> (r: i8) {
        bits as i8
    }

    fn is(self, other: i8) -> (r: bool) {
        self == other
    }

    fn update(self, update: Update, val: i8) -> (r: i8) {
        match update {
            Update::Swap => val,
            Update::Add => self.wrapping_add(val),
            Update::Sub => self.wrapping_sub(val),
            Update::And => self & val,
            Update::Nand => !(self & val),
            Update::Or => self | val,
            Update::Xor => self ^ val,
            Update::Max => if val > self {
                val
            } else {
                self
            },
            Update::Min => if val < self {
                val
            } else {
                self
            },
        }
    }
}

impl Numeric for i16 {
    open spec fn to_bits(self) -> u128 {
        self as u128
    }

    open spec fn of_bits(bits: u128) -> i16 {
        bits as i16
    }

    open spec fn updated(self, update: Update, val: i16) -> i16 {
        match update {
            Update::Swap => val,
            Update::Add => self.wrapping_add(val),
            Update::Sub => self.wrapping_sub(val),
            Update::And => self & val,
            Update::Nand => !(self & val),
            Update::Or => self | val,
            Update::Xor => self ^ val,
            Update::Max => if val > self {
                val
            } else {
                self
            },
            Update::Min => if val < self {
                val
            } else {
                self
            },
        }
    }

    open spec fn number(self) -> int {
        self as int
    }

    open spec fn bit_count() -> u32 {
        i16::BITS
    }

    open spec fn modulus() -> int {
        u16::MAX + 1
    }

    proof fn round_trip(self) {
        lemma_sign_extension(0, self, 0, 0, 0, 0);
    }

    proof fn held(self, bits: u128) {
        let v = bits as i16;
        assert(self < 0 ==> self as u128 == u128::MAX - (-1 - self)) by {
            lemma_sign_extension(0, self, 0, 0, 0, 0);
        }
        assert(v < 0 ==> v as u128 == u128::MAX - (-1 - v)) by {
            lemma_sign_extension(0, v, 0, 0, 0, 0);
        }
        assert((v as u128) % 0x1_0000 == bits % 0x1_0000) by {
            lemma_bits(bits, 0, 0);
        }
        if v < 0 {
            lemma_wrapped(v as int, 0x1_0000, 0x1_0000_0000_0000_0000_0000_0000_0000);
        }
        lemma_congruent(v as int, bits as int, 0x1_0000);
    }

    proof fn updates(self, val: i16, i: u32) {
        lemma_bitwise(0, 0, 0, 0, 0, 0, 0, 0, 0, 0, 0, 0, 0, 0, self, val, 0, 0, 0, 0, 0, 0, 0, 0);
        if i < i16::BITS {
            lemma_bits(self as u128, val as u128, i);
            lemma_bits((self as u128) & (val as u128), 0, i);
            lemma_bits(!((self as u128) & (val as u128)), 0, i);
        }
    }

    fn into_u128(self) -> (r: u128) {
        self as u128
    }

    fn from_u128(bits: u128) -> (r: i16) {
        bits as i16
    }

    fn is(self, other: i16) -> (r: bool) {
        self == other
    }

    fn update(self, update: Update, val: i16) -> (r: i16) {
        match update {
            Update::Swap => val,
            Update::Add => self.wrapping_add(val),
            Update::Sub => self.wrapping_sub(val),
            Update::And => self & val,
            Update::Nand => !(self & val),
            Update::Or => self | val,
            Update::Xor => self ^ val,
            Update::Max => if val > self {
                val
            } else {
                self
            },
            Update::Min => if val < self {
                val
            } else {
                self
            },
        }
    }
}

impl Numeric for i32 {
    open spec fn to_bits(self) -> u128 {
        self as u128
    }

    open spec fn of_bits(bits: u128) -> i32 {
        bits as i32
    }

    open spec fn updated(self, update: Update, val: i32) -> i32 {
        match update {
            Update::Swap => val,
            Update::Add => self.wrapping_add(val),
            Update::Sub => self.wrapping_sub(val),
            Update::And => self & val,
            Update::Nand => !(self & val),
            Update::Or => self | val,
            Update::Xor => self ^ val,
            Update::Max => if val > self {
                val
            } else {
                self
            },
            Update::Min => if val < self {
                val
            } else {
                self
            },
        }
    }

    open spec fn number(self) -> int {
        self as int
    }

    open spec fn bit_count() -> u32 {
        i32::BITS
    }

    open spec fn modulus() -> int {
        u32::MAX + 1
    }

    proof fn round_trip(self) {
        lemma_sign_extension(0, 0, self, 0, 0, 0);
    }

    proof fn held(self, bits: u128) {
        let v = bits as i32;
        assert(self < 0 ==> self as u128 == u128::MAX - (-1 - self)) by {
            lemma_sign_extension(0, 0, self, 0, 0, 0);
        }
        assert(v < 0 ==> v as u128 == u128::MAX - (-1 - v)) by {
            lemma_sign_extension(0, 0, v, 0, 0, 0);
        }
        assert((v as u128) % 0x1_0000_0000 == bits % 0x1_0000_0000) by {
            lemma_bits(bits, 0, 0);
        }
        if v < 0 {
            lemma_wrapped(v as int, 0x1_0000_0000, 0x1_0000_0000_0000_0000_0000_0000);
        }
        lemma_congruent(v as int, bits as int, 0x1_0000_0000);
    }

    proof fn updates(self, val: i32, i: u32) {
        lemma_bitwise(0, 0, 0, 0, 0, 0, 0, 0, 0, 0, 0, 0, 0, 0, 0, 0, self, val, 0, 0, 0, 0, 0, 0);
        if i < i32::BITS {
            lemma_bits(self as u128, val as u128, i);
            lemma_bits((self as u128) & (val as u128), 0, i);
            lemma_bits(!((self as u128) & (val as u128)), 0, i);
        }
    }

    fn into_u128(self) -> (r: u128) {
        self as u128
    }

    fn from_u128(bits: u128) -> (r: i32) {
        bits as i32
    }

    fn is(self, other: i32) -> (r: bool) {
        self == other
    }

    fn update(self, update: Update, val: i32) -> (r: i32) {
        match update {
            Update::Swap => val,
            Update::Add => self.wrapping_add(val),
            Update::Sub => self.wrapping_sub(val),
            Update::And => self & val,
            Update::Nand => !(self & val),
            Update::Or => self | val,
            Update::Xor => self ^ val,
            Update::Max => if val > self {
                val
            } else {
                self
            },
            Update::Min => if val < self {
                val
            } else {
                self
            },
        }
    }
}

impl Numeric for i64 {
    open spec fn to_bits(self) -> u128 {
        self as u128
    }

    open spec fn of_bits(bits: u128) -> i64 {
        bits as i64
    }

    open spec fn updated(self, update: Update, val: i64) -> i64 {
        match update {
            Update::Swap => val,
            Update::Add => self.wrapping_add(val),
            Update::Sub => self.wrapping_sub(val),
            Update::And => self & val,
            Update::Nand => !(self & val),
            Update::Or => self | val,
            Update::Xor => self ^ val,
            Update::Max => if val > self {
                val
            } else {
                self
            },
            Update::Min => if val < self {
                val
            } else {
                self
            },
        }
    }

    open spec fn number(self) -> int {
        self as int
    }

    open spec fn bit_count() -> u32 {
        i64::BITS
    }

    open spec fn modulus() -> int {
        u64::MAX + 1
    }

    proof fn round_trip(self) {
        lemma_sign_extension(0, 0, 0, self, 0, 0);
    }

    proof fn held(self, bits: u128) {
        let v = bits as i64;
        assert(self < 0 ==> self as u128 == u128::MAX - (-1 - self)) by {
            lemma_sign_extension(0, 0, 0, self, 0, 0);
        }
        assert(v < 0 ==> v as u128 == u128::MAX - (-1 - v)) by {
            lemma_sign_extension(0, 0, 0, v, 0, 0);
        }
        assert((v as u128) % 0x1_0000_0000_0000_0000 == bits % 0x1_0000_0000_0000_0000) by {
            lemma_bits(bits, 0, 0);
        }
        if v < 0 {
            lemma_wrapped(v as int, 0x1_0000_0000_0000_0000, 0x1_0000_0000_0000_0000);
        }
        lemma_congruent(v as int, bits as int, 0x1_0000_0000_0000_0000);
    }

    proof fn updates(self, val: i64, i: u32) {
        lemma_bitwise(0, 0, 0, 0, 0, 0, 0, 0, 0, 0, 0, 0, 0, 0, 0, 0, 0, 0, self, val, 0, 0, 0, 0);
        if i < i64::BITS {
            lemma_bits(self as u128, val as u128, i);
            lemma_bits((self as u128) & (val as u128), 0, i);
            lemma_bits(!((self as u128) & (val as u128)), 0, i);
        }
    }

    fn into_u128(self) -> (r: u128) {
        self as u128
    }

    fn from_u128(bits: u128) -> (r: i64) {
        bits as i64
    }

    fn is(self, other: i64) -> (r: bool) {
        self == other
    }

    fn update(self, update: Update, val: i64) -> (r: i64) {
        match update {
            Update::Swap => val,
            Update::Add => self.wrapping_add(val),
            Update::Sub => self.wrapping_sub(val),
            Update::And => self & val,
            Update::Nand => !(self & val),
            Update::Or => self | val,
            Update::Xor => self ^ val,
            Update::Max => if val > self {
                val
            } else {
                self
            },
            Update::Min => if val < self {
                val
            } else {
                self
            },
        }
    }
}

impl Numeric for isize {
    open spec fn to_bits(self) -> u128 {
        self as u128
    }

    open spec fn of_bits(bits: u128) -> isize {
        bits as isize
    }

    open spec fn updated(self, update: Update, val: isize) -> isize {
        match update {
            Update::Swap => val,
            Update::Add => self.wrapping_add(val),
            Update::Sub => self.wrapping_sub(val),
            Update::And => self & val,
            Update::Nand => !(self & val),
            Update::Or => self | val,
            Update::Xor => self ^ val,
            Update::Max => if val > self {
                val
            } else {
                self
            },
            Update::Min => if val < self {
                val
            } else {
                self
            },
        }
    }

    open spec fn number(self) -> int {
        self as int
    }

    open spec fn bit_count() -> u32 {
        isize::BITS
    }

    open spec fn modulus() -> int {
        usize::MAX + 1
    }

    proof fn round_trip(self) {
        lemma_sign_extension(0, 0, 0, 0, self, 0);
    }

    proof fn held(self, bits: u128) {
        let v = bits as isize;
        assert(self < 0 ==> self as u128 == u128::MAX - (-1 - self)) by {
            lemma_sign_extension(0, 0, 0, 0, self, 0);
        }
        assert(v < 0 ==> v as u128 == u128::MAX - (-1 - v)) by {
            lemma_sign_extension(0, 0, 0, 0, v, 0);
        }
        assert((v as u128) as int % (usize::MAX + 1) == bits as int % (usize::MAX + 1)) by {
            lemma_bits(bits, 0, 0);
            lemma_bits(v as u128, 0, 0);
            lemma_bitwise(
                0, 0, 0, 0, 0, 0, 0, 0, usize::MAX, 0, 0, 0, 0, 0, 0, 0, 0, 0, 0, 0, 0, 0, 0, 0,
            );
        }
        if v < 0 {
            if usize::MAX == 0xffff_ffff {
                lemma_wrapped(v as int, 0x1_0000_0000, 0x1_0000_0000_0000_0000_0000_0000);
            } else {
                lemma_wrapped(v as int, 0x1_0000_0000_0000_0000, 0x1_0000_0000_0000_0000);
            }
        }
        lemma_congruent(v as int, bits as int, usize::MAX + 1);
    }

    proof fn updates(self, val: isize, i: u32) {
        lemma_bitwise(0, 0, 0, 0, 0, 0, 0, 0, 0, 0, 0, 0, 0, 0, 0, 0, 0, 0, 0, 0, self, val, 0, 0);
        if i < isize::BITS {
            lemma_bits(self as u128, val as u128, i);
            lemma_bits((self as u128) & (val as u128), 0, i);
            lemma_bits(!((self as u128) & (val as u128)), 0, i);
        }
    }

    fn into_u128(self) -> (r: u128) {
        self as u128
    }

    fn from_u128(bits: u128) -> (r: isize) {
        bits as isize
    }

    fn is(self, other: isize) -> (r: bool) {
        self == other
    }

    fn update(self, update: Update, val: isize) -> (r: isize) {
        match update {
            Update::Swap => val,
            Update::Add => self.wrapping_add(val),
            Update::Sub => self.wrapping_sub(val),
            Update::And => self & val,
            Update::Nand => !(self & val),
            Update::Or => self | val,
            Update::Xor => self ^ val,
            Update::Max => if val > self {
                val
            } else {
                self
            },
            Update::Min => if val < self {
                val
            } else {
                self
            },
        }
    }
}

impl Numeric for i128 {
    open spec fn to_bits(self) -> u128 {
        self as u128
    }

    open spec fn of_bits(bits: u128) -> i128 {
        bits as i128
    }

    open spec fn updated(self, update: Update, val: i128) -> i128 {
        match update {
            Update::Swap => val,
            Update::Add => self.wrapping_add(val),
            Update::Sub => self.wrapping_sub(val),
            Update::And => self & val,
            Update::Nand => !(self & val),
            Update::Or => self | val,
            Update::Xor => self ^ val,
            Update::Max => if val > self {
                val
            } else {
                self
            },
            Update::Min => if val < self {
                val
            } else {
                self
            },
        }
    }

    open spec fn number(self) -> int {
        self as int
    }

    open spec fn bit_count() -> u32 {
        i128::BITS
    }

    open spec fn modulus() -> int {
        u128::MAX + 1
    }

    proof fn round_trip(self) {
        lemma_sign_extension(0, 0, 0, 0, 0, self);
    }

    proof fn held(self, bits: u128) {
        let v = bits as i128;
        assert(self < 0 ==> self as u128 == u128::MAX - (-1 - self)) by {
            lemma_sign_extension(0, 0, 0, 0, 0, self);
        }
        assert(v < 0 ==> v as u128 == u128::MAX - (-1 - v)) by {
            lemma_sign_extension(0, 0, 0, 0, 0, v);
        }
        assert(v as u128 == bits) by {
            lemma_bits(bits, 0, 0);
        }
    }

    proof fn updates(self, val: i128, i: u32) {
        lemma_bitwise(0, 0, 0, 0, 0, 0, 0, 0, 0, 0, 0, 0, 0, 0, 0, 0, 0, 0, 0, 0, 0, 0, self, val);
        if i < i128::BITS {
            lemma_bits(self as u128, val as u128, i);
            lemma_bits((self as u128) & (val as u128), 0, i);
            lemma_bits(!((self as u128) & (val as u128)), 0, i);
        }
    }

    fn into_u128(self) -> (r: u128) {
        self as u128
    }

    fn from_u128(bits: u128) -> (r: i128) {
        bits as i128
    }

    fn is(self, other: i128) -> (r: bool) {
        self == other
    }

    fn update(self, update: Update, val: i128) -> (r: i128) {
        match update {
            Update::Swap => val,
            Update::Add => self.wrapping_add(val),
            Update::Sub => self.wrapping_sub(val),
            Update::And => self & val,
            Update::Nand => !(self & val),
            Update::Or => self | val,
            Update::Xor => self ^ val,
            Update::Max => if val > self {
                val
            } else {
                self
            },
            Update::Min => if val < self {
                val
            } else {
                self
            },
        }
    }
}

/// The number of an integer is the integer, and each type wraps at two to the
/// number of its bits.
pub proof fn numbers_are_the_integers(
    a: u8,
    b: u16,
    c: u32,
    d: u64,
    e: usize,
    f: u128,
    g: i8,
    h: i16,
    j: i32,
    k: i64,
    m: isize,
    n: i128,
)
    ensures
        a.number() == a,
        b.number() == b,
        c.number() == c,
        d.number() == d,
        e.number() == e,
        f.number() == f,
        g.number() == g,
        h.number() == h,
        j.number() == j,
        k.number() == k,
        m.number() == m,
        n.number() == n,
        u8::modulus() == 0x100 && <u8 as Numeric>::bit_count() == 8,
        u16::modulus() == 0x1_0000 && <u16 as Numeric>::bit_count() == 16,
        u32::modulus() == 0x1_0000_0000 && <u32 as Numeric>::bit_count() == 32,
        u64::modulus() == 0x1_0000_0000_0000_0000 && <u64 as Numeric>::bit_count() == 64,
        usize::modulus() == usize::MAX + 1 && <usize as Numeric>::bit_count() == usize::BITS,
        u128::modulus() == 0x1_0000_0000_0000_0000_0000_0000_0000_0000 && <u128 as Numeric>::bit_count() == 128,
        i8::modulus() == 0x100 && <i8 as Numeric>::bit_count() == 8,
        i16::modulus() == 0x1_0000 && <i16 as Numeric>::bit_count() == 16,
        i32::modulus() == 0x1_0000_0000 && <i32 as Numeric>::bit_count() == 32,
        i64::modulus() == 0x1_0000_0000_0000_0000 && <i64 as Numeric>::bit_count() == 64,
        isize::modulus() == usize::MAX + 1 && <isize as Numeric>::bit_count() == usize::BITS,
        i128::modulus() == 0x1_0000_0000_0000_0000_0000_0000_0000_0000 && <i128 as Numeric>::bit_count() == 128,
{
}

} // verus!
