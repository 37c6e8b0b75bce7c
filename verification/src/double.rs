//! Binary floating-point numbers, seen through their bit patterns.
//!
//! A price, a size or an edge is an IEEE 754 binary64 number. The library stores it, orders it
//! and compares it by its bit pattern; sums and products of such numbers are the business of
//! [`crate::arithmetic`].

use vstd::prelude::*;

verus! {

/// The bit pattern of positive infinity: the largest magnitude that is not a NaN.
pub const INFINITY_BITS: u64 = 0x7ff0_0000_0000_0000;

/// The bit that holds the sign.
pub const SIGN_BIT: u64 = 0x8000_0000_0000_0000;

/// The bit pattern of `1e-12`.
pub const DUST_BITS: u64 = 0x3d71_9799_812d_ea11;

/// The bit pattern of `5.0`.
pub const FIVE_BITS: u64 = 0x4014_0000_0000_0000;

/// The bit pattern of `10.0`.
pub const TEN_BITS: u64 = 0x4024_0000_0000_0000;

/// The bit pattern of a billion.
pub const BILLION_BITS: u64 = 0x41cd_cd65_0000_0000;

/// A binary64 number, held as its bit pattern.
///
/// `==` on this type compares bit patterns: it tells the two zeros apart.
#[derive(Clone, Copy, Debug, PartialEq, Eq, Structural)]
pub struct Double {
    pub bits: u64,
}

impl Double {
    /// The pattern without its sign.
    pub open spec fn magnitude(self) -> int {
        if self.bits < SIGN_BIT {
            self.bits as int
        } else {
            self.bits - SIGN_BIT
        }
    }

    /// Whether the number is a NaN.
    pub open spec fn nan(self) -> bool {
        self.magnitude() > INFINITY_BITS
    }

    /// Whether the number is neither infinite nor a NaN.
    pub open spec fn finite(self) -> bool {
        self.magnitude() < INFINITY_BITS
    }

    /// The integer that a power of two, the one of `exponent`, multiplies to give the size of a
    /// finite number.
    pub open spec fn significand(self) -> nat {
        let low = self.magnitude() % 0x10_0000_0000_0000;
        if self.magnitude() < 0x10_0000_0000_0000 {
            low as nat
        } else {
            (0x10_0000_0000_0000 + low) as nat
        }
    }

    /// The power of two that multiplies `significand`.
    pub open spec fn exponent(self) -> int {
        let field = self.magnitude() / 0x10_0000_0000_0000;
        if field == 0 {
            -1074
        } else {
            field - 1075
        }
    }

    /// The place of the number on the number line: among numbers that are not NaN, a smaller
    /// number has a smaller rank, and the two zeros share one.
    pub open spec fn rank(self) -> int {
        if self.bits < SIGN_BIT {
            self.magnitude()
        } else {
            -self.magnitude()
        }
    }

    /// `self > other`, which is false as soon as one of the two is a NaN.
    pub open spec fn gt(self, other: Double) -> bool {
        !self.nan() && !other.nan() && self.rank() > other.rank()
    }

    /// `self <= other`, which is false as soon as one of the two is a NaN.
    pub open spec fn le(self, other: Double) -> bool {
        !self.nan() && !other.nan() && self.rank() <= other.rank()
    }

    /// Positive zero.
    pub fn zero() -> (r: Double)
        ensures
            r.bits == 0,
            r.rank() == 0,
            !r.nan(),
    {
        Double { bits: 0 }
    }

    /// Whether the number is a NaN.
    pub fn is_nan(self) -> (r: bool)
        ensures
            r == self.nan(),
    {
        if self.bits < SIGN_BIT {
            self.bits > INFINITY_BITS
        } else {
            self.bits - SIGN_BIT > INFINITY_BITS
        }
    }

    /// Whether the number is neither infinite nor a NaN.
    pub fn is_finite(self) -> (r: bool)
        ensures
            r == self.finite(),
    {
        if self.bits < SIGN_BIT {
            self.bits < INFINITY_BITS
        } else {
            self.bits - SIGN_BIT < INFINITY_BITS
        }
    }

    /// The rank of the number, as an integer that orders as the number does.
    pub fn order_key(self) -> (r: i64)
        ensures
            r == self.rank(),
    {
        if self.bits < SIGN_BIT {
            self.bits as i64
        } else {
            let magnitude: i64 = (self.bits - SIGN_BIT) as i64;
            -magnitude
        }
    }

    /// `self > other`.
    pub fn exceeds(self, other: Double) -> (r: bool)
        ensures
            r == self.gt(other),
    {
        !self.is_nan() && !other.is_nan() && self.order_key() > other.order_key()
    }

    /// `self <= other`.
    pub fn at_most(self, other: Double) -> (r: bool)
        ensures
            r == self.le(other),
    {
        !self.is_nan() && !other.is_nan() && self.order_key() <= other.order_key()
    }

    /// The smaller of two numbers; where one is a NaN, the other.
    pub open spec fn min_spec(self, other: Double) -> Double {
        if self.nan() || self.gt(other) {
            other
        } else {
            self
        }
    }

    /// The smaller of two numbers; where one is a NaN, the other.
    pub fn lesser(self, other: Double) -> (r: Double)
        ensures
            r == self.min_spec(other),
    {
        if self.is_nan() || self.exceeds(other) {
            other
        } else {
            self
        }
    }
}

} // verus!
