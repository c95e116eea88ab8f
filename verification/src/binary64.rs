//! Binary floating-point values as their bit patterns.
//!
//! Coordinates, distances and elevations are IEEE 754 binary64 values that the
//! callers compute. The library carries them by their 64 bits and orders them;
//! it does no arithmetic on them.

use vstd::prelude::*;

verus! {

/// A binary64 value, given by its bit pattern.
#[derive(Clone, Copy, Debug, PartialEq, Eq, Structural)]
pub struct Binary64 {
    pub bits: u64,
}

/// The bit pattern of positive infinity: larger magnitudes are not numbers.
pub const INFINITE_BITS: u64 = 0x7ff0_0000_0000_0000;

/// The sign bit.
pub const SIGN_BIT: u64 = 0x8000_0000_0000_0000;

impl Binary64 {
    /// The bits without the sign: they grow with the absolute value.
    pub open spec fn magnitude(self) -> int {
        if self.bits >= SIGN_BIT {
            self.bits - SIGN_BIT
        } else {
            self.bits as int
        }
    }

    /// Whether the value is not a number.
    pub open spec fn nan(self) -> bool {
        self.magnitude() > INFINITE_BITS
    }

    /// Whether the value is a number other than an infinity.
    pub open spec fn finite(self) -> bool {
        self.magnitude() < INFINITE_BITS
    }

    /// An integer that orders all numbers as their values do; both zeros have rank 0.
    pub open spec fn rank(self) -> int {
        if self.bits >= SIGN_BIT {
            -self.magnitude()
        } else {
            self.magnitude()
        }
    }

    /// `self <= other` as numbers; false where either is not a number.
    pub open spec fn le(self, other: Binary64) -> bool {
        !self.nan() && !other.nan() && self.rank() <= other.rank()
    }

    /// The value with the other sign.
    pub open spec fn negated(self) -> Binary64 {
        Binary64 {
            bits: if self.bits >= SIGN_BIT {
                (self.bits - SIGN_BIT) as u64
            } else {
                (self.bits + SIGN_BIT) as u64
            },
        }
    }

    /// The smaller of two values; where one is not a number, the other one.
    pub open spec fn spec_min(self, other: Binary64) -> Binary64 {
        if self.nan() {
            other
        } else if other.nan() || self.rank() <= other.rank() {
            self
        } else {
            other
        }
    }

    /// The larger of two values; where one is not a number, the other one.
    pub open spec fn spec_max(self, other: Binary64) -> Binary64 {
        if self.nan() {
            other
        } else if other.nan() || self.rank() >= other.rank() {
            self
        } else {
            other
        }
    }

    /// Positive zero.
    pub open spec fn spec_zero() -> Binary64 {
        Binary64 { bits: 0 }
    }

    /// Positive zero.
    #[verifier::when_used_as_spec(spec_zero)]
    pub fn zero() -> (z: Binary64)
        ensures
            z == Binary64::spec_zero(),
    {
        Binary64 { bits: 0 }
    }

    /// The value with this bit pattern.
    pub fn from_bits(bits: u64) -> (v: Binary64)
        ensures
            v.bits == bits,
    {
        Binary64 { bits }
    }

    fn exec_magnitude(self) -> (m: u64)
        ensures
            m == self.magnitude(),
    {
        if self.bits >= SIGN_BIT {
            self.bits - SIGN_BIT
        } else {
            self.bits
        }
    }

    /// Whether the value is not a number.
    pub fn is_nan(self) -> (b: bool)
        ensures
            b == self.nan(),
    {
        self.exec_magnitude() > INFINITE_BITS
    }

    /// Whether the value is a number other than an infinity.
    pub fn is_finite(self) -> (b: bool)
        ensures
            b == self.finite(),
    {
        self.exec_magnitude() < INFINITE_BITS
    }

    /// The rank by which numbers are ordered.
    pub fn order_rank(self) -> (r: i64)
        ensures
            r == self.rank(),
    {
        let m = self.exec_magnitude();
        if self.bits >= SIGN_BIT {
            -(m as i64)
        } else {
            m as i64
        }
    }

    /// Whether `self <= other` as numbers.
    pub fn at_most(self, other: Binary64) -> (b: bool)
        ensures
            b == self.le(other),
    {
        !self.is_nan() && !other.is_nan() && self.order_rank() <= other.order_rank()
    }

    /// The smaller of two values; where one is not a number, the other one.
    #[verifier::when_used_as_spec(spec_min)]
    pub fn min(self, other: Binary64) -> (m: Binary64)
        ensures
            m == self.spec_min(other),
    {
        if self.is_nan() {
            other
        } else if other.is_nan() || self.order_rank() <= other.order_rank() {
            self
        } else {
            other
        }
    }

    /// The larger of two values; where one is not a number, the other one.
    #[verifier::when_used_as_spec(spec_max)]
    pub fn max(self, other: Binary64) -> (m: Binary64)
        ensures
            m == self.spec_max(other),
    {
        if self.is_nan() {
            other
        } else if other.is_nan() || self.order_rank() >= other.order_rank() {
            self
        } else {
            other
        }
    }
}

/// Numbers with a larger bit pattern are larger where the sign bit is clear and smaller
/// where it is set; both zeros are equal, and any other negative number lies below both.
/// Just the patterns beyond that of an infinity are no numbers.
pub proof fn bits_order_the_numbers(a: Binary64, b: Binary64)
    ensures
        a.bits < 0x8000_0000_0000_0000 && b.bits < 0x8000_0000_0000_0000 ==> (a.rank() < b.rank()
            <==> a.bits < b.bits),
        a.bits >= 0x8000_0000_0000_0000 && b.bits >= 0x8000_0000_0000_0000 ==> (a.rank()
            < b.rank() <==> a.bits > b.bits),
        a.bits >= 0x8000_0000_0000_0000 && b.bits < 0x8000_0000_0000_0000 ==> {
            &&& a.rank() <= b.rank()
            &&& a.rank() == b.rank() <==> a.bits == 0x8000_0000_0000_0000 && b.bits == 0
        },
        a.nan() <==> 0x7ff0_0000_0000_0000 < a.bits < 0x8000_0000_0000_0000 || a.bits
            > 0xfff0_0000_0000_0000,
        a.finite() <==> a.bits < 0x7ff0_0000_0000_0000 || 0x8000_0000_0000_0000 <= a.bits
            < 0xfff0_0000_0000_0000,
        a.le(b) <==> !a.nan() && !b.nan() && a.rank() <= b.rank(),
{
}

/// The smaller and the larger of two values are these values; of two numbers, the one
/// lies at or below both and the other at or above both, and where one value is not a
/// number both are the other one.
pub proof fn extremes_are_the_values(a: Binary64, b: Binary64)
    ensures
        a.nan() ==> a.spec_min(b) == b && a.spec_max(b) == b,
        !a.nan() && b.nan() ==> a.spec_min(b) == a && a.spec_max(b) == a,
        !a.nan() && !b.nan() ==> {
            &&& a.spec_min(b) == a || a.spec_min(b) == b
            &&& a.spec_max(b) == a || a.spec_max(b) == b
            &&& a.spec_min(b).rank() <= a.rank() && a.spec_min(b).rank() <= b.rank()
            &&& a.spec_max(b).rank() >= a.rank() && a.spec_max(b).rank() >= b.rank()
        },
{
}

/// A change of sign turns the order round and undoes itself.
pub proof fn signs_turn_the_order_round(a: Binary64)
    ensures
        a.negated().rank() == -a.rank(),
        a.negated().negated() == a,
        a.negated() != a,
        a.negated().nan() == a.nan(),
{
}

} // verus!
