//! What bit patterns are worth.
//!
//! A finite number is a whole multiple of the least one above zero. Counted in
//! those multiples its value is an integer, however large, and comparing,
//! flipping and bounding patterns can be held against arithmetic on it.

use vstd::arithmetic::power2::{
    lemma_pow2_adds, lemma_pow2_pos, lemma_pow2_strictly_increases, lemma_pow2_unfold, pow2,
};
use vstd::prelude::*;

use crate::double::Double;
use crate::scalar::{Scalar, Triple};

verus! {

/// The value of an exponent above a fraction below `weight`, in multiples of
/// the least number above zero.
pub open spec fn worth(magnitude: int, weight: int) -> int {
    if magnitude / weight <= 0 {
        magnitude % weight
    } else {
        (weight + magnitude % weight) * pow2((magnitude / weight - 1) as nat)
    }
}

/// A larger magnitude is worth more.
proof fn lemma_worth_grows(a: int, b: int, weight: int)
    requires
        0 <= a < b,
        0 < weight,
    ensures
        0 <= worth(a, weight) < worth(b, weight),
{
    let low = a / weight;
    let high = b / weight;
    let f = a % weight;
    let g = b % weight;
    assert(a == low * weight + f && 0 <= f < weight && 0 <= low) by (nonlinear_arith)
        requires
            low == a / weight,
            f == a % weight,
            0 <= a,
            0 < weight,
    ;
    assert(b == high * weight + g && 0 <= g < weight && 0 <= high) by (nonlinear_arith)
        requires
            high == b / weight,
            g == b % weight,
            0 <= b,
            0 < weight,
    ;
    assert(low <= high) by (nonlinear_arith)
        requires
            a == low * weight + f,
            b == high * weight + g,
            a < b,
            0 <= f,
            g < weight,
            0 < weight,
    ;
    if low == high {
        assert(f < g) by (nonlinear_arith)
            requires
                a == low * weight + f,
                b == low * weight + g,
                a < b,
        ;
        if low > 0 {
            let p = pow2((low - 1) as nat) as int;
            lemma_pow2_pos((low - 1) as nat);
            assert(0 <= (weight + f) * p < (weight + g) * p) by (nonlinear_arith)
                requires
                    0 <= f < g,
                    0 < weight,
                    0 < p,
            ;
        }
    } else {
        let q = pow2((high - 1) as nat) as int;
        lemma_pow2_pos((high - 1) as nat);
        assert((weight + g) * q >= weight * q) by (nonlinear_arith)
            requires
                0 <= g,
                0 < q,
        ;
        if low == 0 {
            assert(weight * q >= weight) by (nonlinear_arith)
                requires
                    0 < weight,
                    1 <= q,
            ;
        } else {
            let p = pow2((low - 1) as nat) as int;
            lemma_pow2_pos((low - 1) as nat);
            lemma_pow2_unfold(low as nat);
            if low < high - 1 {
                lemma_pow2_strictly_increases(low as nat, (high - 1) as nat);
            }
            assert(2 * p <= q);
            assert(0 <= (weight + f) * p < weight * q) by (nonlinear_arith)
                requires
                    0 <= f < weight,
                    0 < p,
                    2 * p <= q,
            ;
        }
    }
}

impl Scalar {
    /// The value of this number, in multiples of the least one above zero.
    pub open spec fn units(self) -> int {
        if self.bits >= 0x8000_0000 {
            -worth(self.bits - 0x8000_0000, 0x80_0000)
        } else {
            worth(self.bits as int, 0x80_0000)
        }
    }
}

impl Double {
    /// The value of this number, in multiples of the least one above zero.
    pub open spec fn units(self) -> int {
        if self.bits >= 0x8000_0000_0000_0000 {
            -worth(self.bits - 0x8000_0000_0000_0000, 0x10_0000_0000_0000)
        } else {
            worth(self.bits as int, 0x10_0000_0000_0000)
        }
    }
}

impl Triple {
    /// The values of three numbers.
    pub open spec fn units(self) -> (int, int, int) {
        (self.x.units(), self.y.units(), self.z.units())
    }
}

/// How many of the least single-precision numbers above zero make one.
pub open spec fn units_of_one() -> int {
    pow2(149) as int
}

/// Numbers are ordered as their values are: whatever two finite numbers are
/// worth, comparing their patterns says it. Infinity lies beyond all of them.
pub proof fn numbers_compare_as_their_values(a: Scalar, b: Scalar)
    requires
        a.finite(),
        b.finite(),
    ensures
        a.below(b) <==> a.units() < b.units(),
        a.at_most(b) <==> a.units() <= b.units(),
        a.same_value(b) <==> a.units() == b.units(),
        a.below(Scalar::infinity()),
        Scalar::negative_infinity().below(a),
        !Scalar::infinity().finite() && !Scalar::infinity().nan(),
        !Scalar::negative_infinity().finite() && !Scalar::negative_infinity().nan(),
{
    let p = a.magnitude();
    let q = b.magnitude();
    let w = 0x80_0000;
    assert(worth(0, w) == 0);
    if p < q {
        lemma_worth_grows(p, q, w);
    }
    if q < p {
        lemma_worth_grows(q, p, w);
    }
    if 0 < p {
        lemma_worth_grows(0, p, w);
    }
    if 0 < q {
        lemma_worth_grows(0, q, w);
    }
}

/// Flipping a number's sign negates its value, clearing it leaves the distance
/// from zero, and zero and one are worth what they say.
pub proof fn signs_are_those_of_values(a: Scalar)
    requires
        a.finite(),
    ensures
        a.opposite().finite() && a.opposite().units() == -a.units(),
        a.unsigned().finite() && a.unsigned().units() == (if a.units() < 0 {
            -a.units()
        } else {
            a.units()
        }),
        Scalar::zero().units() == 0,
        Scalar::one().units() == units_of_one(),
{
    let w = 0x80_0000;
    assert(worth(0, w) == 0);
    if 0 < a.magnitude() {
        lemma_worth_grows(0, a.magnitude(), w);
    }
    lemma_one();
}

/// The pattern of one is worth one.
proof fn lemma_one()
    ensures
        Scalar::one().units() == units_of_one(),
{
    vstd::arithmetic::power2::lemma2_to64();
    lemma_pow2_adds(126, 23);
    assert(0x3F80_0000int / 0x80_0000int == 127);
    assert(0x3F80_0000int % 0x80_0000int == 0);
    assert(pow2(126) * 0x80_0000 == 0x80_0000 * pow2(126));
}

/// The larger and the smaller of two numbers are one of them, and bound both;
/// what is bounded stays where it was inside, and goes to the nearer end outside.
pub proof fn bounds_are_those_of_values(a: Scalar, low: Scalar, high: Scalar)
    requires
        a.finite(),
        low.finite(),
        high.finite(),
    ensures
        ({
            let more = low.larger(high);
            let less = low.smaller(high);
            &&& more == low || more == high
            &&& more.units() >= low.units() && more.units() >= high.units()
            &&& less == low || less == high
            &&& less.units() <= low.units() && less.units() <= high.units()
        }),
        low.units() <= high.units() ==> {
            let kept = a.between(low, high);
            &&& low.units() <= kept.units() <= high.units()
            &&& low.units() <= a.units() <= high.units() ==> kept == a
            &&& a.units() < low.units() ==> kept == low
            &&& high.units() < a.units() ==> kept == high
        },
{
    numbers_compare_as_their_values(low, high);
    numbers_compare_as_their_values(high, low);
    numbers_compare_as_their_values(a, low);
    numbers_compare_as_their_values(high, a);
}

/// What is not a number is below nothing and above nothing, agrees with
/// nothing, and gives way to a number.
pub proof fn what_is_no_number_orders_nothing(hole: Scalar, a: Scalar)
    requires
        hole.nan(),
    ensures
        !hole.finite(),
        !hole.below(a) && !a.below(hole),
        !hole.at_most(a) && !a.at_most(hole),
        !hole.same_value(a) && !a.same_value(hole),
        hole.larger(a) == a && hole.smaller(a) == a,
        !a.nan() ==> a.larger(hole) == a && a.smaller(hole) == a,
{
}

/// All patterns stand in one row: different ones never share a place, numbers
/// stand in the order of their values, and negative zero just before zero.
pub proof fn all_patterns_stand_in_a_row(a: Scalar, b: Scalar)
    ensures
        a.total_key() == b.total_key() <==> a.bits == b.bits,
        a.below(b) ==> a.total_key() < b.total_key(),
        Scalar::zero().opposite().total_key() + 1 == Scalar::zero().total_key(),
{
}

/// Numbers are ordered as their values are, in double precision too, and each
/// steps to the number next to it.
pub proof fn doubles_compare_as_their_values(a: Double, b: Double)
    requires
        a.finite(),
        b.finite(),
    ensures
        a.below(b) <==> a.units() < b.units(),
        a.at_most(b) <==> a.units() <= b.units(),
        a.same_value(b) <==> a.units() == b.units(),
        a.unsigned().units() == (if a.units() < 0 {
            -a.units()
        } else {
            a.units()
        }),
        a.below(Double::infinity()) && Double::negative_infinity().below(a),
        Double::zero().units() == 0,
        ({
            let more = a.larger(b);
            let less = a.smaller(b);
            &&& more == a || more == b
            &&& more.units() >= a.units() && more.units() >= b.units()
            &&& less == a || less == b
            &&& less.units() <= a.units() && less.units() <= b.units()
        }),
{
    let p = a.magnitude();
    let q = b.magnitude();
    let w = 0x10_0000_0000_0000;
    assert(worth(0, w) == 0);
    if p < q {
        lemma_worth_grows(p, q, w);
    }
    if q < p {
        lemma_worth_grows(q, p, w);
    }
    if 0 < p {
        lemma_worth_grows(0, p, w);
    }
    if 0 < q {
        lemma_worth_grows(0, q, w);
    }
}

/// Nothing lies strictly between a number and the one next above it, nor
/// between it and the one next underneath.
pub proof fn neighbours_leave_no_gap(a: Double, b: Double)
    requires
        a.finite(),
        b.finite(),
    ensures
        a.below(a.above()) && a.underneath().below(a),
        a.below(b) ==> a.above().at_most(b),
        b.below(a) ==> b.at_most(a.underneath()),
{
}

/// All double-precision patterns stand in one row, numbers in the order of
/// their values.
pub proof fn all_double_patterns_stand_in_a_row(a: Double, b: Double)
    ensures
        a.total_key() == b.total_key() <==> a.bits == b.bits,
        a.below(b) ==> a.total_key() < b.total_key(),
{
}

/// What an encoding is worth.
pub open spec fn coded(bits: u32) -> int {
    Scalar { bits }.units()
}

/// Whether an encoding is worth `count / parts` exactly.
pub open spec fn encodes(bits: u32, count: int, parts: int) -> bool {
    Scalar { bits }.units() * parts == count * units_of_one()
}

/// Whether an encoding is the nearest to `count / parts`: at most half a step
/// of its last place away.
pub open spec fn rounds(bits: u32, count: int, parts: int) -> bool {
    let step = pow2((bits as int / 0x80_0000 - 1) as nat) as int;
    let off = Scalar { bits }.units() * parts - count * units_of_one();
    -(parts * step) <= 2 * off <= parts * step
}

/// A normal encoding is worth its fraction, shifted: `shift` says by how much
/// its last place lies below one.
pub(crate) proof fn lemma_encoded(bits: u32, count: int, parts: int, shift: nat)
    requires
        0x80_0000 <= bits < 0x7F80_0000,
        bits as int / 0x80_0000 + shift == 150,
        0 < parts,
    ensures
        (0x80_0000 + bits as int % 0x80_0000) * parts == count * pow2(shift) ==> encodes(
            bits,
            count,
            parts,
        ),
        -parts <= 2 * ((0x80_0000 + bits as int % 0x80_0000) * parts - count * pow2(shift))
            <= parts ==> rounds(bits, count, parts),
{
    let e = bits as int / 0x80_0000;
    let m = 0x80_0000 + bits as int % 0x80_0000;
    let p = pow2((e - 1) as nat) as int;
    let k = pow2(shift) as int;
    lemma_pow2_pos((e - 1) as nat);
    lemma_pow2_adds((e - 1) as nat, shift);
    assert(((e - 1) as nat) + shift == 149);
    let off = m * parts - count * k;
    assert((m * p) * parts - count * (p * k) == p * off) by (nonlinear_arith)
        requires
            off == m * parts - count * k,
    ;
    if off == 0 {
        assert(p * off == 0) by (nonlinear_arith)
            requires
                off == 0,
        ;
    }
    if -parts <= 2 * off <= parts {
        assert(-(parts * p) <= 2 * (p * off) <= parts * p) by (nonlinear_arith)
            requires
                -parts <= 2 * off <= parts,
                0 < p,
        ;
    }
}

/// How many of the least double-precision numbers above zero make one.
pub open spec fn double_units_of_one() -> int {
    pow2(1074) as int
}

/// What a double-precision encoding is worth.
pub open spec fn double_coded(bits: u64) -> int {
    Double { bits }.units()
}

/// Whether a double-precision encoding is the nearest to `count / parts`: at
/// most half a step of its last place away.
pub open spec fn double_rounds(bits: u64, count: int, parts: int) -> bool {
    let step = pow2((bits as int / 0x10_0000_0000_0000 - 1) as nat) as int;
    let off = Double { bits }.units() * parts - count * double_units_of_one();
    -(parts * step) <= 2 * off <= parts * step
}

/// A normal double-precision encoding is worth its fraction, shifted: `shift`
/// says by how much its last place lies below one.
pub(crate) proof fn lemma_double_encoded(bits: u64, count: int, parts: int, shift: nat)
    requires
        0x10_0000_0000_0000 <= bits < 0x7FF0_0000_0000_0000,
        bits as int / 0x10_0000_0000_0000 + shift == 1075,
        0 < parts,
        -parts <= 2 * ((0x10_0000_0000_0000 + bits as int % 0x10_0000_0000_0000) * parts - count
            * pow2(shift)) <= parts,
    ensures
        double_rounds(bits, count, parts),
{
    let e = bits as int / 0x10_0000_0000_0000;
    let m = 0x10_0000_0000_0000 + bits as int % 0x10_0000_0000_0000;
    let p = pow2((e - 1) as nat) as int;
    let k = pow2(shift) as int;
    lemma_pow2_pos((e - 1) as nat);
    lemma_pow2_adds((e - 1) as nat, shift);
    assert(double_units_of_one() == p * k);
    assert(Double { bits }.units() == m * p);
    let off = m * parts - count * k;
    assert((m * p) * parts - count * (p * k) == off * p) by (nonlinear_arith)
        requires
            off == m * parts - count * k,
    ;
    assert(-(parts * p) <= 2 * (off * p) <= parts * p) by (nonlinear_arith)
        requires
            -parts <= 2 * off <= parts,
            0 < p,
    ;
}

/// The double-precision pattern of one is worth one.
pub(crate) proof fn lemma_double_one()
    ensures
        Double::one().units() == double_units_of_one(),
        Double::one().finite(),
{
    vstd::arithmetic::power2::lemma2_to64();
    lemma_pow2_adds(32, 20);
    lemma_pow2_adds(1022, 52);
    assert(0x3FF0_0000_0000_0000int / 0x10_0000_0000_0000 == 1023);
    assert(0x3FF0_0000_0000_0000int % 0x10_0000_0000_0000 == 0);
    let p = pow2(1022) as int;
    let w = pow2(52) as int;
    assert(w == 0x10_0000_0000_0000);
    assert(p * w == w * p) by (nonlinear_arith);
}

} // verus!
