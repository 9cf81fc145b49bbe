//! Double-precision numbers held by their bit pattern.
//!
//! Contact queries measure in double precision. Their decisions compare the
//! measures, flip or clear a sign, and step to the neighbouring number, so a
//! measure is kept as the 64 bits of its IEEE 754 encoding.

use vstd::prelude::*;

verus! {

/// The weight of the sign bit.
pub const SIGN_BIT: u64 = 0x8000_0000_0000_0000;

/// The magnitude bits of infinity; larger magnitudes are not numbers.
pub const INFINITY_BITS: u64 = 0x7FF0_0000_0000_0000;

/// A double-precision number.
#[derive(Clone, Copy, Debug, PartialEq, Eq, PartialOrd, Ord, Hash, Structural)]
pub struct Double {
    /// IEEE 754 encoding.
    pub bits: u64,
}

impl Double {
    /// Exponent and fraction, without the sign.
    pub open spec fn magnitude(self) -> int {
        if self.bits >= SIGN_BIT {
            self.bits - SIGN_BIT
        } else {
            self.bits as int
        }
    }

    /// Whether the sign bit is set.
    pub open spec fn negative(self) -> bool {
        self.bits >= SIGN_BIT
    }

    /// Whether the pattern encodes no number.
    pub open spec fn nan(self) -> bool {
        self.magnitude() > INFINITY_BITS
    }

    /// Whether the pattern encodes a finite number.
    pub open spec fn finite(self) -> bool {
        self.magnitude() < INFINITY_BITS
    }

    /// Orders numbers as their values are ordered; both zeros share a key.
    pub open spec fn key(self) -> int {
        if self.negative() {
            -self.magnitude()
        } else {
            self.magnitude()
        }
    }

    /// Whether this number is below the other. Never so when either is not a number.
    pub open spec fn below(self, other: Self) -> bool {
        !self.nan() && !other.nan() && self.key() < other.key()
    }

    /// Whether this number is at most the other. Never so when either is not a number.
    pub open spec fn at_most(self, other: Self) -> bool {
        !self.nan() && !other.nan() && self.key() <= other.key()
    }

    /// Whether the values agree; the two zeros do.
    pub open spec fn same_value(self, other: Self) -> bool {
        !self.nan() && !other.nan() && self.key() == other.key()
    }

    /// Orders every pattern, numbers or not: by sign, then by magnitude.
    pub open spec fn total_key(self) -> int {
        if self.negative() {
            -1 - self.magnitude()
        } else {
            self.magnitude()
        }
    }

    /// The number with its sign cleared.
    pub open spec fn unsigned(self) -> Self {
        Double { bits: self.magnitude() as u64 }
    }

    /// The larger of two numbers, and the one that is a number where the other
    /// is none; this one where they agree.
    pub open spec fn larger(self, other: Self) -> Self {
        if self.nan() || self.below(other) {
            other
        } else {
            self
        }
    }

    /// The smaller of two numbers, and the one that is a number where the other
    /// is none; this one where they agree.
    pub open spec fn smaller(self, other: Self) -> Self {
        if self.nan() || other.below(self) {
            other
        } else {
            self
        }
    }

    /// The next number above. Infinity and what is not a number stay.
    pub open spec fn above(self) -> Self {
        if self.nan() || self.key() == INFINITY_BITS {
            self
        } else if self.magnitude() == 0 {
            Double { bits: 1 }
        } else if self.negative() {
            Double { bits: (self.bits - 1) as u64 }
        } else {
            Double { bits: (self.bits + 1) as u64 }
        }
    }

    /// The next number underneath. Negative infinity and what is not a number stay.
    pub open spec fn underneath(self) -> Self {
        if self.nan() || self.key() == -INFINITY_BITS {
            self
        } else if self.magnitude() == 0 {
            Double { bits: (SIGN_BIT + 1) as u64 }
        } else if self.negative() {
            Double { bits: (self.bits + 1) as u64 }
        } else {
            Double { bits: (self.bits - 1) as u64 }
        }
    }

    /// The number with this encoding.
    pub fn from_bits(bits: u64) -> (number: Self)
        ensures
            number == (Double { bits }),
    {
        Double { bits }
    }

    /// The encoding of this number.
    pub fn to_bits(self) -> (bits: u64)
        ensures
            bits == self.bits,
    {
        self.bits
    }

    /// Exponent and fraction, without the sign.
    fn magnitude_bits(self) -> (bits: u64)
        ensures
            bits == self.magnitude(),
    {
        if self.bits >= SIGN_BIT {
            self.bits - SIGN_BIT
        } else {
            self.bits
        }
    }

    /// Whether this is neither infinite nor not a number.
    pub fn is_finite(self) -> (finite: bool)
        ensures
            finite == self.finite(),
    {
        self.magnitude_bits() < INFINITY_BITS
    }

    /// Whether this encodes no number.
    pub fn is_nan(self) -> (nan: bool)
        ensures
            nan == self.nan(),
    {
        self.magnitude_bits() > INFINITY_BITS
    }

    /// An integer that orders numbers as their values are ordered.
    fn order_key(self) -> (key: i64)
        ensures
            key == self.key(),
    {
        let magnitude: i64 = self.magnitude_bits() as i64;
        if self.bits >= SIGN_BIT {
            -magnitude
        } else {
            magnitude
        }
    }

    /// Whether this number is below `other`.
    pub fn less(self, other: Self) -> (less: bool)
        ensures
            less == self.below(other),
    {
        let left: i64 = self.order_key();
        let right: i64 = other.order_key();
        !self.is_nan() && !other.is_nan() && left < right
    }

    /// Whether this number is at most `other`.
    pub fn less_or_equal(self, other: Self) -> (ordered: bool)
        ensures
            ordered == self.at_most(other),
    {
        let left: i64 = self.order_key();
        let right: i64 = other.order_key();
        !self.is_nan() && !other.is_nan() && left <= right
    }

    /// Whether the two values agree.
    pub fn equal(self, other: Self) -> (equal: bool)
        ensures
            equal == self.same_value(other),
    {
        let left: i64 = self.order_key();
        let right: i64 = other.order_key();
        !self.is_nan() && !other.is_nan() && left == right
    }

    /// An integer that orders every pattern.
    fn total_order_key(self) -> (key: i64)
        ensures
            key == self.total_key(),
    {
        let magnitude: i64 = self.magnitude_bits() as i64;
        if self.bits >= SIGN_BIT {
            -1 - magnitude
        } else {
            magnitude
        }
    }

    /// Whether this pattern stands at or before `other` in the order of all patterns.
    pub fn total_less_or_equal(self, other: Self) -> (ordered: bool)
        ensures
            ordered == (self.total_key() <= other.total_key()),
    {
        let left: i64 = self.total_order_key();
        let right: i64 = other.total_order_key();
        left <= right
    }

    /// The number with its sign cleared.
    pub fn absolute(self) -> (number: Self)
        ensures
            number == self.unsigned(),
    {
        Double { bits: self.magnitude_bits() }
    }

    /// The larger of two numbers.
    pub fn maximum(self, other: Self) -> (number: Self)
        ensures
            number == self.larger(other),
    {
        if self.is_nan() || self.less(other) {
            other
        } else {
            self
        }
    }

    /// The smaller of two numbers.
    pub fn minimum(self, other: Self) -> (number: Self)
        ensures
            number == self.smaller(other),
    {
        if self.is_nan() || other.less(self) {
            other
        } else {
            self
        }
    }

    /// The next number above.
    pub fn next_up(self) -> (number: Self)
        ensures
            number == self.above(),
    {
        if self.is_nan() || self.bits == INFINITY_BITS {
            self
        } else if self.magnitude_bits() == 0 {
            Double { bits: 1 }
        } else if self.bits >= SIGN_BIT {
            Double { bits: self.bits - 1 }
        } else {
            Double { bits: self.bits + 1 }
        }
    }

    /// The next number underneath.
    pub fn next_down(self) -> (number: Self)
        ensures
            number == self.underneath(),
    {
        if self.is_nan() || self.bits == SIGN_BIT + INFINITY_BITS {
            self
        } else if self.magnitude_bits() == 0 {
            Double { bits: SIGN_BIT + 1 }
        } else if self.bits >= SIGN_BIT {
            Double { bits: self.bits + 1 }
        } else {
            Double { bits: self.bits - 1 }
        }
    }

    /// Zero.
    #[verifier::allow_in_spec]
    pub fn zero() -> Self
        returns
            (Double { bits: 0 }),
    {
        Double { bits: 0 }
    }

    /// One.
    #[verifier::allow_in_spec]
    pub fn one() -> Self
        returns
            (Double { bits: 0x3FF0_0000_0000_0000 }),
    {
        Double { bits: 0x3FF0_0000_0000_0000 }
    }

    /// Positive infinity.
    #[verifier::allow_in_spec]
    pub fn infinity() -> Self
        returns
            (Double { bits: 0x7FF0_0000_0000_0000 }),
    {
        Double { bits: 0x7FF0_0000_0000_0000 }
    }

    /// Negative infinity.
    #[verifier::allow_in_spec]
    pub fn negative_infinity() -> Self
        returns
            (Double { bits: 0xFFF0_0000_0000_0000 }),
    {
        Double { bits: 0xFFF0_0000_0000_0000 }
    }
}

/// No number lies between a finite number and its neighbours.
pub proof fn neighbours_are_adjacent(number: Double)
    requires
        number.finite(),
    ensures
        number.above().key() == number.key() + 1,
        number.underneath().key() == number.key() - 1,
        !number.above().nan(),
        !number.underneath().nan(),
{
}

} // verus!
