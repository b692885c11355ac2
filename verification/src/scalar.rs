//! Single-precision numbers, carried as their IEEE 754 bit patterns.
//!
//! The index never computes with distances: it compares them. Two comparisons
//! are in use. The total order ranks every value, all NaNs being equal to each
//! other and greater than anything else, and the two zeros being equal. The
//! arithmetic order is the usual "less than", which no NaN takes part in.

use vstd::prelude::*;

verus! {

/// The bit pattern without its sign.
pub open spec fn magnitude(bits: u32) -> int {
    (bits as int) % 0x8000_0000
}

/// A single-precision number as its bit pattern: sign in the highest bit, then
/// eight bits of exponent and twenty-three of fraction.
#[derive(Clone, Copy, Debug, PartialEq, Eq, Structural)]
pub struct Scalar {
    /// The bit pattern.
    pub bits: u32,
}

impl Scalar {
    /// Not a number: the exponent is all ones and the fraction is not zero.
    pub open spec fn nan(self) -> bool {
        magnitude(self.bits) > 0x7f80_0000
    }

    /// The place of the value in the total order.
    pub open spec fn rank(self) -> int {
        if self.nan() {
            0x7f80_0001
        } else if self.bits < 0x8000_0000 {
            magnitude(self.bits)
        } else {
            -magnitude(self.bits)
        }
    }

    /// Arithmetic "less than".
    pub open spec fn below(self, other: Scalar) -> bool {
        !self.nan() && !other.nan() && self.rank() < other.rank()
    }

    /// Arithmetic "at least zero".
    pub open spec fn at_least_zero(self) -> bool {
        !self.nan() && self.rank() >= 0
    }

    /// The number with the given bit pattern.
    pub fn from_bits(bits: u32) -> (scalar: Scalar)
        ensures
            scalar.bits == bits,
    {
        Scalar { bits }
    }

    /// Whether the value is not a number.
    pub fn is_nan(self) -> (nan: bool)
        ensures
            nan == self.nan(),
    {
        self.bits % 0x8000_0000u32 > 0x7f80_0000u32
    }

    /// The place of the value in the total order, as an integer.
    pub fn order_key(self) -> (key: i64)
        ensures
            key == self.rank(),
    {
        let size: i64 = (self.bits % 0x8000_0000u32) as i64;
        if self.is_nan() {
            0x7f80_0001
        } else if self.bits < 0x8000_0000u32 {
            size
        } else {
            -size
        }
    }

    /// Whether the value is arithmetically less than `other`.
    pub fn is_below(self, other: Scalar) -> (less: bool)
        ensures
            less == self.below(other),
    {
        !self.is_nan() && !other.is_nan() && self.order_key() < other.order_key()
    }

    /// Whether the value is arithmetically at least zero.
    pub fn is_at_least_zero(self) -> (holds: bool)
        ensures
            holds == self.at_least_zero(),
    {
        !self.is_nan() && self.order_key() >= 0
    }
}

/// The two orders agree wherever no NaN is involved, and the arithmetic order
/// relates no NaN to anything.
pub proof fn orders_agree(a: Scalar, b: Scalar)
    ensures
        !a.nan() && !b.nan() ==> (a.below(b) <==> a.rank() < b.rank()),
        a.nan() || b.nan() ==> !a.below(b) && !b.below(a),
        a.nan() && !b.nan() ==> a.rank() > b.rank(),
        a.nan() && b.nan() ==> a.rank() == b.rank(),
{
}

/// The ranks of numbers, by their bit patterns. A pattern stands for no number if, without
/// the sign, it is above that of infinity. Numbers without a sign are ordered as their
/// patterns, numbers with a sign the other way round; the latter are below the former,
/// except that the two zeros are equal. What is no number is above all numbers.
pub proof fn ranks_follow_the_numbers(a: Scalar, b: Scalar)
    ensures
        a.nan() <==> 0x7f80_0000 < a.bits < 0x8000_0000 || a.bits > 0xff80_0000,
        a.bits <= 0x7f80_0000 && b.bits <= 0x7f80_0000 ==> (a.rank() < b.rank() <==> a.bits
            < b.bits),
        0x8000_0000 <= a.bits <= 0xff80_0000 && 0x8000_0000 <= b.bits <= 0xff80_0000 ==> (a.rank()
            < b.rank() <==> a.bits > b.bits),
        0x8000_0000 < a.bits <= 0xff80_0000 && b.bits <= 0x7f80_0000 ==> a.rank() < b.rank(),
        a.bits == 0x8000_0000 && b.bits == 0 ==> a.rank() == b.rank(),
        a.bits == b.bits ==> a.rank() == b.rank(),
        a.nan() && !b.nan() ==> a.rank() > b.rank(),
        a.below(b) <==> !a.nan() && !b.nan() && a.rank() < b.rank(),
        a.at_least_zero() <==> a.bits <= 0x7f80_0000 || a.bits == 0x8000_0000,
{
}

} // verus!
