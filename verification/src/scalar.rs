//! Single-precision numbers held by their bit pattern.
//!
//! The rules of this library read numbers, test them against bounds, compare
//! them and flip their sign. None of that needs arithmetic, so a number is kept
//! as the 32 bits of its IEEE 754 encoding: a sign bit above an exponent and a
//! fraction, which together grow with the magnitude.

use vstd::prelude::*;

verus! {

/// The weight of the sign bit.
pub const SIGN_BIT: u32 = 0x8000_0000;

/// The magnitude bits of infinity; larger magnitudes are not numbers.
pub const INFINITY_BITS: u32 = 0x7F80_0000;

/// A single-precision number.
#[derive(Clone, Copy, Debug, PartialEq, Eq, PartialOrd, Ord, Hash, Structural)]
pub struct Scalar {
    /// IEEE 754 encoding.
    pub bits: u32,
}

impl Scalar {
    /// Exponent and fraction, without the sign.
    pub open spec fn magnitude(self) -> int {
        if self.bits >= SIGN_BIT {
            self.bits - SIGN_BIT
        } else {
            self.bits as int
        }
    }

    /// Whether the sign bit is set.
    pub open spec fn negative(self) -> bool {
        self.bits >= SIGN_BIT
    }

    /// Whether the pattern encodes no number.
    pub open spec fn nan(self) -> bool {
        self.magnitude() > INFINITY_BITS
    }

    /// Whether the pattern encodes a finite number.
    pub open spec fn finite(self) -> bool {
        self.magnitude() < INFINITY_BITS
    }

    /// Orders numbers as their values are ordered; both zeros share a key.
    pub open spec fn key(self) -> int {
        if self.negative() {
            -self.magnitude()
        } else {
            self.magnitude()
        }
    }

    /// Whether this number is below the other. Never so when either is not a number.
    pub open spec fn below(self, other: Self) -> bool {
        !self.nan() && !other.nan() && self.key() < other.key()
    }

    /// Whether this number is at most the other. Never so when either is not a number.
    pub open spec fn at_most(self, other: Self) -> bool {
        !self.nan() && !other.nan() && self.key() <= other.key()
    }

    /// Whether the values agree; the two zeros do.
    pub open spec fn same_value(self, other: Self) -> bool {
        !self.nan() && !other.nan() && self.key() == other.key()
    }

    /// Orders every pattern, numbers or not: by sign, then by magnitude.
    pub open spec fn total_key(self) -> int {
        if self.negative() {
            -1 - self.magnitude()
        } else {
            self.magnitude()
        }
    }

    /// The number with its sign flipped.
    pub open spec fn opposite(self) -> Self {
        if self.bits >= SIGN_BIT {
            Scalar { bits: (self.bits - SIGN_BIT) as u32 }
        } else {
            Scalar { bits: (self.bits + SIGN_BIT) as u32 }
        }
    }

    /// The number with its sign cleared.
    pub open spec fn unsigned(self) -> Self {
        Scalar { bits: self.magnitude() as u32 }
    }

    /// The larger of two numbers, and the one that is a number where the other
    /// is none; this one where they agree.
    pub open spec fn larger(self, other: Self) -> Self {
        if self.nan() || self.below(other) {
            other
        } else {
            self
        }
    }

    /// The smaller of two numbers, and the one that is a number where the other
    /// is none; this one where they agree.
    pub open spec fn smaller(self, other: Self) -> Self {
        if self.nan() || other.below(self) {
            other
        } else {
            self
        }
    }

    /// The nearest number to this one within bounds.
    pub open spec fn between(self, low: Self, high: Self) -> Self {
        if self.below(low) {
            low
        } else if high.below(self) {
            high
        } else {
            self
        }
    }

    /// The number with this encoding.
    pub fn from_bits(bits: u32) -> (number: Self)
        ensures
            number == (Scalar { bits }),
    {
        Scalar { bits }
    }

    /// The encoding of this number.
    pub fn to_bits(self) -> (bits: u32)
        ensures
            bits == self.bits,
    {
        self.bits
    }

    /// Exponent and fraction, without the sign.
    fn magnitude_bits(self) -> (bits: u32)
        ensures
            bits == self.magnitude(),
    {
        if self.bits >= SIGN_BIT {
            self.bits - SIGN_BIT
        } else {
            self.bits
        }
    }

    /// Whether this is neither infinite nor not a number.
    pub fn is_finite(self) -> (finite: bool)
        ensures
            finite == self.finite(),
    {
        self.magnitude_bits() < INFINITY_BITS
    }

    /// Whether this encodes no number.
    pub fn is_nan(self) -> (nan: bool)
        ensures
            nan == self.nan(),
    {
        self.magnitude_bits() > INFINITY_BITS
    }

    /// Whether this number is below `other`.
    pub fn less(self, other: Self) -> (less: bool)
        ensures
            less == self.below(other),
    {
        let left: i64 = self.order_key();
        let right: i64 = other.order_key();
        !self.is_nan() && !other.is_nan() && left < right
    }

    /// Whether this number is at most `other`.
    pub fn less_or_equal(self, other: Self) -> (ordered: bool)
        ensures
            ordered == self.at_most(other),
    {
        let left: i64 = self.order_key();
        let right: i64 = other.order_key();
        !self.is_nan() && !other.is_nan() && left <= right
    }

    /// Whether the two values agree.
    pub fn equal(self, other: Self) -> (equal: bool)
        ensures
            equal == self.same_value(other),
    {
        let left: i64 = self.order_key();
        let right: i64 = other.order_key();
        !self.is_nan() && !other.is_nan() && left == right
    }

    /// An integer that orders numbers as their values are ordered.
    fn order_key(self) -> (key: i64)
        ensures
            key == self.key(),
    {
        let magnitude: i64 = self.magnitude_bits() as i64;
        if self.bits >= SIGN_BIT {
            -magnitude
        } else {
            magnitude
        }
    }

    /// Whether this pattern stands at or before `other` in the order of all patterns.
    pub fn total_less_or_equal(self, other: Self) -> (ordered: bool)
        ensures
            ordered == (self.total_key() <= other.total_key()),
    {
        let left: i64 = self.total_order_key();
        let right: i64 = other.total_order_key();
        left <= right
    }

    /// An integer that orders every pattern.
    fn total_order_key(self) -> (key: i64)
        ensures
            key == self.total_key(),
    {
        let magnitude: i64 = self.magnitude_bits() as i64;
        if self.bits >= SIGN_BIT {
            -1 - magnitude
        } else {
            magnitude
        }
    }

    /// The number with its sign flipped.
    pub fn negated(self) -> (number: Self)
        ensures
            number == self.opposite(),
    {
        if self.bits >= SIGN_BIT {
            Scalar { bits: self.bits - SIGN_BIT }
        } else {
            Scalar { bits: self.bits + SIGN_BIT }
        }
    }

    /// The number with its sign cleared.
    pub fn absolute(self) -> (number: Self)
        ensures
            number == self.unsigned(),
    {
        Scalar { bits: self.magnitude_bits() }
    }

    /// The larger of two numbers.
    pub fn maximum(self, other: Self) -> (number: Self)
        ensures
            number == self.larger(other),
    {
        if self.is_nan() || self.less(other) {
            other
        } else {
            self
        }
    }

    /// The smaller of two numbers.
    pub fn minimum(self, other: Self) -> (number: Self)
        ensures
            number == self.smaller(other),
    {
        if self.is_nan() || other.less(self) {
            other
        } else {
            self
        }
    }

    /// The nearest number to this one within bounds.
    pub fn clamped(self, low: Self, high: Self) -> (number: Self)
        requires
            low.at_most(high),
        ensures
            number == self.between(low, high),
    {
        if self.less(low) {
            low
        } else if high.less(self) {
            high
        } else {
            self
        }
    }
}

/// Flipping the sign twice gives the number back, and mirrors the order.
pub proof fn negation_is_an_involution(number: Scalar)
    ensures
        number.opposite().opposite() == number,
        number.opposite().key() == -number.key(),
        number.opposite().finite() == number.finite(),
        number.opposite().nan() == number.nan(),
{
}

impl Scalar {
    /// Zero.
    #[verifier::allow_in_spec]
    pub fn zero() -> Self
        returns
            (Scalar { bits: 0 }),
    {
        Scalar { bits: 0 }
    }

    /// One.
    #[verifier::allow_in_spec]
    pub fn one() -> Self
        returns
            (Scalar { bits: 0x3F80_0000 }),
    {
        Scalar { bits: 0x3F80_0000 }
    }

    /// Positive infinity.
    #[verifier::allow_in_spec]
    pub fn infinity() -> Self
        returns
            (Scalar { bits: 0x7F80_0000 }),
    {
        Scalar { bits: 0x7F80_0000 }
    }

    /// Negative infinity.
    #[verifier::allow_in_spec]
    pub fn negative_infinity() -> Self
        returns
            (Scalar { bits: 0xFF80_0000 }),
    {
        Scalar { bits: 0xFF80_0000 }
    }
}

/// Three numbers: a point, a direction or an extent.
#[derive(Clone, Copy, Debug, PartialEq, Eq, PartialOrd, Ord, Hash, Structural)]
pub struct Triple {
    pub x: Scalar,
    pub y: Scalar,
    pub z: Scalar,
}

impl Triple {
    /// A triple of three numbers.
    pub fn new(x: Scalar, y: Scalar, z: Scalar) -> (triple: Self)
        ensures
            triple == (Triple { x, y, z }),
    {
        Triple { x, y, z }
    }

    /// Whether the numbers agree in value.
    pub open spec fn same_value(self, other: Self) -> bool {
        self.x.same_value(other.x) && self.y.same_value(other.y) && self.z.same_value(other.z)
    }

    /// Whether the numbers agree in value.
    pub fn equal(self, other: Self) -> (equal: bool)
        ensures
            equal == self.same_value(other),
    {
        self.x.equal(other.x) && self.y.equal(other.y) && self.z.equal(other.z)
    }

    /// Whether all three numbers are finite.
    pub open spec fn finite(self) -> bool {
        self.x.finite() && self.y.finite() && self.z.finite()
    }

    /// Whether all three numbers are finite.
    pub fn is_finite(self) -> (finite: bool)
        ensures
            finite == self.finite(),
    {
        self.x.is_finite() && self.y.is_finite() && self.z.is_finite()
    }
}

} // verus!
