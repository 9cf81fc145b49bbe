//! Clipping a polygon against a plane.

use vstd::prelude::*;

use crate::double::Double;
use crate::exact::doubles_compare_as_their_values;

verus! {

/// One corner of a clipped polygon.
#[derive(Clone, Copy, Debug, PartialEq, Eq, Structural)]
pub enum ClipCorner {
    /// A corner of the polygon.
    Kept(usize),
    /// Where the side from this corner to the next one crosses the plane.
    Crossing(usize),
}

/// Whether a side crosses the plane between its ends.
pub open spec fn crosses(from: Double, to: Double) -> bool {
    (from.below(Double::zero()) && Double::zero().below(to)) || (Double::zero().below(from)
        && to.below(Double::zero()))
}

/// The distance of the corner behind another, around the polygon.
pub open spec fn following(distances: Seq<Double>, i: int) -> Double {
    if i + 1 < distances.len() {
        distances[i + 1]
    } else {
        distances[0]
    }
}

/// What the first `count` corners and the sides behind them leave.
pub open spec fn clipped(distances: Seq<Double>, count: int) -> Seq<ClipCorner>
    decreases count,
{
    if count <= 0 {
        Seq::empty()
    } else {
        let before = clipped(distances, count - 1);
        let corner = if distances[count - 1].at_most(Double::zero()) {
            before.push(ClipCorner::Kept((count - 1) as usize))
        } else {
            before
        };
        if crosses(distances[count - 1], following(distances, count - 1)) {
            corner.push(ClipCorner::Crossing((count - 1) as usize))
        } else {
            corner
        }
    }
}

/// Clips a polygon by its corners' signed distances from a plane: corners on or
/// behind the plane stay, and sides that pass through it are cut.
pub fn clip(distances: &Vec<Double>) -> (corners: Vec<ClipCorner>)
    ensures
        corners@ == clipped(distances@, distances@.len() as int),
{
    let mut corners: Vec<ClipCorner> = Vec::new();
    let mut i: usize = 0;
    while i < distances.len()
        invariant
            i <= distances@.len(),
            corners@ == clipped(distances@, i as int),
        decreases distances@.len() - i,
    {
        let from: Double = distances[i];
        let to: Double = if i + 1 < distances.len() {
            distances[i + 1]
        } else {
            distances[0]
        };
        if from.less_or_equal(Double::zero()) {
            corners.push(ClipCorner::Kept(i));
        }
        if (from.less(Double::zero()) && Double::zero().less(to)) || (Double::zero().less(from)
            && to.less(Double::zero())) {
            corners.push(ClipCorner::Crossing(i));
        }
        i += 1;
    }
    corners
}

/// Whether a corner of a clipped polygon lies on or behind the plane.
pub open spec fn behind(distances: Seq<Double>, corner: ClipCorner) -> bool {
    match corner {
        ClipCorner::Kept(i) => i < distances.len() && distances[i as int].at_most(Double::zero()),
        ClipCorner::Crossing(i) => i < distances.len() && crosses(
            distances[i as int],
            following(distances, i as int),
        ),
    }
}

/// Every corner of a clipped polygon is a corner on or behind the plane, or lies
/// where a side passes through it.
pub proof fn clipping_stays_behind(distances: Seq<Double>, count: int, k: int)
    requires
        0 <= count <= distances.len(),
        distances.len() <= usize::MAX,
        0 <= k < clipped(distances, count).len(),
    ensures
        behind(distances, clipped(distances, count)[k]),
    decreases count,
{
    if k < clipped(distances, count - 1).len() {
        clipping_stays_behind(distances, count - 1, k);
    }
}

/// A polygon behind the plane stays as it is.
pub proof fn a_polygon_behind_stays(distances: Seq<Double>, count: int)
    requires
        0 <= count <= distances.len(),
        forall|i: int|
            #![trigger distances[i]]
            0 <= i < distances.len() ==> distances[i].at_most(Double::zero()),
    ensures
        clipped(distances, count) == Seq::new(count as nat, |i: int| ClipCorner::Kept(i as usize)),
    decreases count,
{
    if count > 0 {
        a_polygon_behind_stays(distances, count - 1);
        assert(distances[count - 1].at_most(Double::zero()));
        assert(following(distances, count - 1).at_most(Double::zero()));
        assert(clipped(distances, count) =~= Seq::new(
            count as nat,
            |i: int| ClipCorner::Kept(i as usize),
        ));
    }
}

/// Nothing is left of a polygon before the plane.
pub proof fn a_polygon_before_vanishes(distances: Seq<Double>, count: int)
    requires
        0 <= count <= distances.len(),
        forall|i: int|
            #![trigger distances[i]]
            0 <= i < distances.len() ==> Double::zero().below(distances[i]),
    ensures
        clipped(distances, count) == Seq::<ClipCorner>::empty(),
    decreases count,
{
    if count > 0 {
        a_polygon_before_vanishes(distances, count - 1);
        assert(Double::zero().below(distances[count - 1]));
        assert(Double::zero().below(following(distances, count - 1)));
    }
}

/// A corner stays exactly when it lies on or behind the plane, and a side is cut
/// exactly when its ends lie strictly on different sides; the last side leads
/// back to the first corner.
pub proof fn clipping_keeps_what_lies_behind(distances: Seq<Double>, count: int, i: usize)
    requires
        0 <= count <= distances.len() <= usize::MAX,
        i < distances.len(),
        forall|j: int| #![trigger distances[j]] 0 <= j < distances.len() ==> distances[j].finite(),
    ensures
        clipped(distances, count).contains(ClipCorner::Kept(i)) <==> i < count
            && distances[i as int].units() <= 0,
        clipped(distances, count).contains(ClipCorner::Crossing(i)) <==> i < count && {
            let from = distances[i as int].units();
            let to = distances[if i + 1 == distances.len() {
                0
            } else {
                i + 1
            }].units();
            from < 0 < to || to < 0 < from
        },
    decreases count,
{
    let next = if i + 1 == distances.len() {
        0
    } else {
        i + 1
    };
    assert(distances[i as int].finite());
    assert(distances[next].finite());
    doubles_compare_as_their_values(distances[i as int], Double::zero());
    doubles_compare_as_their_values(Double::zero(), distances[i as int]);
    doubles_compare_as_their_values(distances[next], Double::zero());
    doubles_compare_as_their_values(Double::zero(), distances[next]);
    if count > 0 {
        clipping_keeps_what_lies_behind(distances, count - 1, i);
        broadcast use vstd::seq_lib::group_seq_properties;

    }
}

/// Where a corner of a clipped polygon lies around the polygon: a crossing
/// behind the corner that its side starts at.
pub open spec fn turn_of(corner: ClipCorner) -> int {
    match corner {
        ClipCorner::Kept(i) => 2 * i,
        ClipCorner::Crossing(i) => 2 * i + 1,
    }
}

/// A clipped polygon goes around as the polygon did.
pub proof fn clipping_goes_around(distances: Seq<Double>, count: int)
    requires
        0 <= count <= distances.len() <= usize::MAX,
    ensures
        forall|a: int|
            #![trigger clipped(distances, count)[a]]
            0 <= a < clipped(distances, count).len() ==> turn_of(clipped(distances, count)[a]) < 2
                * count,
        forall|a: int, b: int|
            #![trigger clipped(distances, count)[a], clipped(distances, count)[b]]
            0 <= a < b < clipped(distances, count).len() ==> turn_of(clipped(distances, count)[a])
                < turn_of(clipped(distances, count)[b]),
    decreases count,
{
    if count > 0 {
        clipping_goes_around(distances, count - 1);
        let before = clipped(distances, count - 1);
        let now = clipped(distances, count);
        assert forall|a: int| #![trigger now[a]] 0 <= a < before.len() implies now[a]
            == before[a] by {}
    }
}

} // verus!
