//! Exact integer placement on the construction grid.

use vstd::prelude::*;

use bevy_math::IVec3;

verus! {

/// Position ticks in one quarter-metre grid unit.
pub const POSITION_TICKS_PER_GRID_UNIT: i32 = 100;

/// Position ticks in half a grid unit.
pub const POSITION_TICKS_PER_HALF_GRID_UNIT: i32 = 50;

/// Three integer coordinates.
#[derive(Clone, Copy, Debug, PartialEq, Eq, PartialOrd, Ord, Hash, Structural)]
pub struct GridVec {
    pub x: i32,
    pub y: i32,
    pub z: i32,
}

/// The lesser of two integers.
pub open spec fn lesser(a: i32, b: i32) -> i32 {
    if a <= b {
        a
    } else {
        b
    }
}

/// The greater of two integers.
pub open spec fn greater(a: i32, b: i32) -> i32 {
    if a >= b {
        a
    } else {
        b
    }
}

impl GridVec {
    /// A vector of three coordinates.
    pub fn new(x: i32, y: i32, z: i32) -> (vector: Self)
        ensures
            vector == (GridVec { x, y, z }),
    {
        GridVec { x, y, z }
    }

    /// The coordinates as an array.
    pub fn to_array(self) -> (array: [i32; 3])
        ensures
            array@ == seq![self.x, self.y, self.z],
    {
        let array: [i32; 3] = [self.x, self.y, self.z];
        assert(array@ =~= seq![self.x, self.y, self.z]);
        array
    }

    /// The vector of an array of coordinates.
    pub fn from_array(array: [i32; 3]) -> (vector: Self)
        ensures
            vector == (GridVec { x: array@[0], y: array@[1], z: array@[2] }),
    {
        GridVec { x: array[0], y: array[1], z: array[2] }
    }

    /// The least coordinate of two vectors along each axis.
    ///
    /// `IVec3::min` returns the component-wise minimum of its two operands.
    #[verifier::external_body]
    pub(crate) fn least(self, other: Self) -> (vector: Self)
        ensures
            vector == (GridVec {
                x: lesser(self.x, other.x),
                y: lesser(self.y, other.y),
                z: lesser(self.z, other.z),
            }),
    {
        let least = IVec3::new(self.x, self.y, self.z).min(IVec3::new(other.x, other.y, other.z));
        GridVec { x: least.x, y: least.y, z: least.z }
    }

    /// The greatest coordinate of two vectors along each axis.
    ///
    /// `IVec3::max` returns the component-wise maximum of its two operands.
    #[verifier::external_body]
    pub(crate) fn greatest(self, other: Self) -> (vector: Self)
        ensures
            vector == (GridVec {
                x: greater(self.x, other.x),
                y: greater(self.y, other.y),
                z: greater(self.z, other.z),
            }),
    {
        let greatest = IVec3::new(self.x, self.y, self.z).max(
            IVec3::new(other.x, other.y, other.z),
        );
        GridVec { x: greatest.x, y: greatest.y, z: greatest.z }
    }
}

/// Quarter turns around the local axes.
#[derive(Clone, Copy, Debug, PartialEq, Eq, Hash, Structural)]
pub struct GridRotation {
    pub x: u8,
    pub y: u8,
    pub z: u8,
}

/// Grid-aligned placement of a part.
#[derive(Clone, Copy, Debug, PartialEq, Eq, Hash, Structural)]
pub struct BuildPose {
    /// Centre in position ticks.
    pub translation_ticks: GridVec,
    /// Cardinal orientation.
    pub rotation: GridRotation,
}

impl BuildPose {
    /// The unturned pose at the origin.
    #[verifier::allow_in_spec]
    pub fn origin() -> Self
        returns
            (BuildPose {
                translation_ticks: GridVec { x: 0, y: 0, z: 0 },
                rotation: GridRotation { x: 0, y: 0, z: 0 },
            }),
    {
        BuildPose {
            translation_ticks: GridVec { x: 0, y: 0, z: 0 },
            rotation: GridRotation { x: 0, y: 0, z: 0 },
        }
    }

    /// A pose at exact position ticks.
    pub fn from_position_ticks(translation_ticks: GridVec, rotation: GridRotation) -> (pose: Self)
        ensures
            pose == (BuildPose { translation_ticks, rotation }),
    {
        BuildPose { translation_ticks, rotation }
    }
}

/// Whole numbers of grid units along three axes.
#[derive(Clone, Copy, Debug, PartialEq, Eq, Hash, Structural)]
pub struct Sides {
    pub x: u8,
    pub y: u8,
    pub z: u8,
}

/// Mathematical integer coordinates.
pub type Point = (int, int, int);

/// A point turned by quarter turns about the vertical axis.
pub open spec fn turned(point: Point, yaw: int) -> Point {
    let (x, y, z) = point;
    if yaw % 4 == 0 {
        (x, y, z)
    } else if yaw % 4 == 1 {
        (z, y, -x)
    } else if yaw % 4 == 2 {
        (-x, y, -z)
    } else {
        (-z, y, x)
    }
}

impl GridVec {
    /// The coordinates as integers.
    pub open spec fn point(self) -> Point {
        (self.x as int, self.y as int, self.z as int)
    }
}

/// Whether integer coordinates fit a grid vector.
pub open spec fn fits(point: Point) -> bool {
    &&& i32::MIN <= point.0 <= i32::MAX
    &&& i32::MIN <= point.1 <= i32::MAX
    &&& i32::MIN <= point.2 <= i32::MAX
}

/// Quarter turns about the vertical axis add up, and four of them change nothing.
pub proof fn quarter_turns_add_up(point: Point, first: int, second: int)
    requires
        0 <= first,
        0 <= second,
    ensures
        turned(turned(point, first), second) == turned(point, first + second),
        turned(point, 4) == point,
{
    assert((first + second) % 4 == ((first % 4) + (second % 4)) % 4) by (nonlinear_arith);
}

/// Turns a position by quarter turns about the vertical axis.
pub fn rotate_y_i32(position: GridVec, yaw: u8) -> (rotated: GridVec)
    requires
        fits(turned(position.point(), yaw as int)),
    ensures
        rotated.point() == turned(position.point(), yaw as int),
{
    let quarter: u8 = yaw % 4;
    if quarter == 0 {
        position
    } else if quarter == 1 {
        GridVec { x: position.z, y: position.y, z: -position.x }
    } else if quarter == 2 {
        GridVec { x: -position.x, y: position.y, z: -position.z }
    } else {
        GridVec { x: -position.z, y: position.y, z: position.x }
    }
}

/// A quarter turn is right-handed about the vertical axis: height stays, the
/// turned point lies square to the point and as far out, and turning onwards
/// from it runs from z towards x. No turn at all moves nothing.
pub proof fn quarter_turns_are_right_handed(point: Point)
    ensures
        ({
            let next = turned(point, 1);
            &&& next.1 == point.1
            &&& point.0 * next.0 + point.2 * next.2 == 0
            &&& point.2 * next.0 - point.0 * next.2 == point.0 * point.0 + point.2 * point.2
        }),
        turned(point, 0) == point,
{
    let (x, y, z) = point;
    assert(x * z + z * (-x) == 0 && z * z - x * (-x) == x * x + z * z) by (nonlinear_arith);
}

} // verus!
