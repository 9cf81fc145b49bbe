//! Outward-rounded intervals for geometric certificates.
//!
//! An operation rounds to the nearest number, so the exact result lies between
//! the neighbours of what it returned. Every interval widens its ends to those
//! neighbours, and an interval that cannot be finite is an error.

use vstd::prelude::*;

use crate::double::Double;
use crate::exact::{doubles_compare_as_their_values, neighbours_leave_no_gap};

verus! {

/// Invalid compiled geometry or query input. A failed query is not an empty hit.
#[derive(Clone, Copy, Debug, PartialEq, Eq, Structural)]
pub struct ContactGeometryError;

/// The numbers from one end to another.
#[derive(Clone, Copy, Debug, PartialEq, Eq, Structural)]
pub struct Interval {
    pub lo: Double,
    pub hi: Double,
}

impl Interval {
    /// Whether a number lies in the interval.
    pub open spec fn holds(self, number: Double) -> bool {
        self.lo.at_most(number) && number.at_most(self.hi)
    }

    /// Whether the ends are finite and in order.
    pub open spec fn certain(self) -> bool {
        self.lo.finite() && self.hi.finite() && self.lo.key() <= self.hi.key()
    }

    /// The interval of one number.
    #[verifier::allow_in_spec]
    pub fn point(value: Double) -> Self
        returns
            (Interval { lo: value, hi: value }),
    {
        Interval { lo: value, hi: value }
    }

    /// The interval around rounded ends.
    pub open spec fn around(lo: Double, hi: Double) -> Self {
        Interval { lo: lo.underneath(), hi: hi.above() }
    }

    /// The interval around rounded ends.
    pub fn outward(lo: Double, hi: Double) -> (interval: Self)
        ensures
            interval == Self::around(lo, hi),
    {
        Interval { lo: lo.next_down(), hi: hi.next_up() }
    }

    /// The interval around the four rounded products of two intervals' ends;
    /// every number when a product is none.
    pub fn of_products(products: [Double; 4]) -> (interval: Self)
        ensures
            products@[0].nan() || products@[1].nan() || products@[2].nan() || products@[3].nan()
                ==> interval == (Interval {
                lo: Double::negative_infinity(),
                hi: Double::infinity(),
            }),
            !(products@[0].nan() || products@[1].nan() || products@[2].nan() || products@[3].nan())
                ==> interval == Self::around(
                products@[0].smaller(products@[1]).smaller(products@[2]).smaller(products@[3]),
                products@[0].larger(products@[1]).larger(products@[2]).larger(products@[3]),
            ),
            forall|i: int|
                #![trigger products@[i]]
                0 <= i < 4 && !products@[i].nan() ==> interval.holds(products@[i]),
    {
        if products[0].is_nan() || products[1].is_nan() || products[2].is_nan()
            || products[3].is_nan() {
            return Interval { lo: Double::negative_infinity(), hi: Double::infinity() };
        }
        let least: Double = products[0].minimum(products[1]).minimum(products[2]).minimum(
            products[3],
        );
        let greatest: Double = products[0].maximum(products[1]).maximum(products[2]).maximum(
            products[3],
        );
        proof {
            lemma_least_and_greatest(products@[0], products@[1], products@[2], products@[3]);
            lemma_around_holds(least, greatest, products@[0]);
            lemma_around_holds(least, greatest, products@[1]);
            lemma_around_holds(least, greatest, products@[2]);
            lemma_around_holds(least, greatest, products@[3]);
            assert forall|i: int|
                #![trigger products@[i]]
                0 <= i < 4 && !products@[i].nan() implies Self::around(least, greatest).holds(
                products@[i],
            ) by {
                assert(i == 0 || i == 1 || i == 2 || i == 3);
            }
        }
        Interval::outward(least, greatest)
    }

    /// The magnitudes of the numbers in an interval.
    pub open spec fn magnitudes(self) -> Self {
        Interval {
            lo: if self.lo.at_most(Double::zero()) && Double::zero().at_most(self.hi) {
                Double::zero()
            } else {
                self.lo.unsigned().smaller(self.hi.unsigned())
            },
            hi: self.lo.unsigned().larger(self.hi.unsigned()),
        }
    }

    /// The magnitudes of the numbers in this interval.
    pub fn abs(self) -> (interval: Self)
        ensures
            interval == self.magnitudes(),
    {
        let lo: Double = if self.lo.less_or_equal(Double::zero()) && Double::zero().less_or_equal(
            self.hi,
        ) {
            Double::zero()
        } else {
            self.lo.absolute().minimum(self.hi.absolute())
        };
        Interval { lo, hi: self.lo.absolute().maximum(self.hi.absolute()) }
    }

    /// The interval around the rounded squares of a magnitude interval's ends.
    pub fn of_squares(lo: Double, hi: Double) -> (interval: Self)
        ensures
            interval == (Interval { lo: lo.underneath().larger(Double::zero()), hi: hi.above() }),
            Double::zero().at_most(interval.lo),
            Double::zero().at_most(lo) ==> interval.lo.at_most(lo),
            !hi.nan() ==> hi.at_most(interval.hi),
    {
        Interval { lo: lo.next_down().maximum(Double::zero()), hi: hi.next_up() }
    }

    /// This interval where it certifies something: finite ends, in order.
    pub fn finite(self) -> (checked: Result<Self, ContactGeometryError>)
        ensures
            checked == if self.certain() {
                Ok::<Self, ContactGeometryError>(self)
            } else {
                Err(ContactGeometryError)
            },
    {
        if self.lo.is_finite() && self.hi.is_finite() && self.lo.less_or_equal(self.hi) {
            Ok(self)
        } else {
            Err(ContactGeometryError)
        }
    }

    /// The part of this interval that has square roots.
    pub fn rooted(self) -> (checked: Result<Self, ContactGeometryError>)
        ensures
            checked == if self.certain() && Double::zero().at_most(self.hi) {
                Ok::<Self, ContactGeometryError>(
                    Interval { lo: self.lo.larger(Double::zero()), hi: self.hi },
                )
            } else {
                Err(ContactGeometryError)
            },
            checked is Ok ==> Double::zero().at_most(checked->Ok_0.lo) && self.lo.at_most(
                checked->Ok_0.lo,
            ) && checked->Ok_0.hi == self.hi,
    {
        match self.finite() {
            Err(error) => Err(error),
            Ok(_) => if self.hi.less(Double::zero()) {
                Err(ContactGeometryError)
            } else {
                Ok(Interval { lo: self.lo.maximum(Double::zero()), hi: self.hi })
            },
        }
    }

    /// This interval as a divisor: finite and above zero.
    pub fn divides(self) -> (checked: Result<Self, ContactGeometryError>)
        ensures
            checked == if self.certain() && Double::zero().below(self.lo) {
                Ok::<Self, ContactGeometryError>(self)
            } else {
                Err(ContactGeometryError)
            },
    {
        if self.lo.less_or_equal(Double::zero()) {
            return Err(ContactGeometryError);
        }
        self.finite()
    }
}

/// The least and the greatest of four numbers bound all of them.
proof fn lemma_least_and_greatest(a: Double, b: Double, c: Double, d: Double)
    requires
        !a.nan() && !b.nan() && !c.nan() && !d.nan(),
    ensures
        ({
            let least = a.smaller(b).smaller(c).smaller(d);
            let greatest = a.larger(b).larger(c).larger(d);
            &&& least.at_most(a) && least.at_most(b) && least.at_most(c) && least.at_most(d)
            &&& a.at_most(greatest) && b.at_most(greatest) && c.at_most(greatest) && d.at_most(
                greatest,
            )
        }),
{
    let low = a.smaller(b);
    let lower = low.smaller(c);
    let high = a.larger(b);
    let higher = high.larger(c);
    assert(low.at_most(a) && low.at_most(b));
    assert(lower.at_most(low) && lower.at_most(c));
    assert(a.at_most(high) && b.at_most(high));
    assert(high.at_most(higher) && c.at_most(higher));
}

/// What lies between two ends lies in the interval around them.
proof fn lemma_around_holds(lo: Double, hi: Double, number: Double)
    requires
        lo.at_most(number),
        number.at_most(hi),
    ensures
        Interval::around(lo, hi).holds(number),
{
}

/// A number that two rounded ends enclose lies strictly inside the interval
/// around them: rounding to nearest moves an end by less than one step.
pub proof fn rounding_stays_enclosed(lo: Double, hi: Double, number: Double)
    requires
        lo.finite(),
        hi.finite(),
        lo.at_most(number),
        number.at_most(hi),
    ensures
        Interval::around(lo, hi).holds(number),
        Interval::around(lo, hi).lo.below(number),
        number.below(Interval::around(lo, hi).hi),
{
}

/// The magnitude of every number in an interval lies in the magnitudes.
pub proof fn magnitudes_enclose(interval: Interval, number: Double)
    requires
        interval.holds(number),
    ensures
        interval.magnitudes().holds(number.unsigned()),
{
}

/// An interval of magnitudes never dips below zero.
pub proof fn magnitudes_are_not_negative(interval: Interval)
    requires
        !interval.lo.nan(),
        !interval.hi.nan(),
    ensures
        Double::zero().at_most(interval.magnitudes().lo),
        interval.magnitudes().lo.at_most(interval.magnitudes().hi),
{
}

/// Rounding widens an interval by no more than one step at either end.
pub proof fn rounding_widens_by_one_step(lo: Double, hi: Double, number: Double)
    requires
        lo.finite(),
        hi.finite(),
        number.finite(),
    ensures
        Interval::around(lo, hi).lo.below(number) ==> lo.units() <= number.units(),
        number.below(Interval::around(lo, hi).hi) ==> number.units() <= hi.units(),
{
    neighbours_leave_no_gap(lo, number);
    neighbours_leave_no_gap(hi, number);
    doubles_compare_as_their_values(lo, number);
    doubles_compare_as_their_values(number, hi);
    doubles_compare_as_their_values(number, lo);
    doubles_compare_as_their_values(hi, number);
}

/// Magnitudes are no wider than they need to be: their ends are the distances of
/// the interval's ends from zero, and zero itself where the interval spans it.
pub proof fn magnitudes_are_tight(interval: Interval)
    requires
        interval.certain(),
    ensures
        ({
            let lo = interval.lo.units();
            let hi = interval.hi.units();
            let near = interval.magnitudes().lo.units();
            let far = interval.magnitudes().hi.units();
            &&& lo <= hi
            &&& lo <= 0 <= hi ==> near == 0
            &&& 0 < lo ==> near == lo && far == hi
            &&& hi < 0 ==> near == -hi && far == -lo
            &&& far == hi || far == -lo
            &&& hi <= far && -lo <= far
        }),
{
    doubles_compare_as_their_values(interval.lo, interval.hi);
    doubles_compare_as_their_values(interval.hi, interval.lo);
    doubles_compare_as_their_values(interval.lo, Double::zero());
    doubles_compare_as_their_values(Double::zero(), interval.hi);
    doubles_compare_as_their_values(interval.lo.unsigned(), interval.hi.unsigned());
}

} // verus!
