//! Turning and moving a creation acts once on build space.
//!
//! A part stands at a point of its grid, and its grid stands somewhere in build
//! space. A turned document turns both, so the grid's own transform is carried
//! along to keep the motion from acting twice. What that comes to is stated
//! here in exact arithmetic.

use vstd::prelude::*;

use super::doc::{pose_of, CreationDocument};
use super::rows::pose_doc_in;
use super::transform::{moved_point, part_turned, CardinalMotion};
use crate::grid::{turned, GridVec, Point};

verus! {

/// The sum of two points.
pub open spec fn sum(a: Point, b: Point) -> Point {
    (a.0 + b.0, a.1 + b.1, a.2 + b.2)
}

/// A point a number of times as far out.
pub open spec fn scaled(a: Point, factor: int) -> Point {
    (a.0 * factor, a.1 * factor, a.2 * factor)
}

/// A grid's transform without rounding: where its axes point and where its
/// origin lies, counted in `1 / scale` ticks.
pub ghost struct ExactGrid {
    pub x_axis: Point,
    pub y_axis: Point,
    pub z_axis: Point,
    pub origin: Point,
    pub scale: int,
}

impl ExactGrid {
    /// A direction of the grid, in build space.
    pub open spec fn direction(self, local: Point) -> Point {
        sum(
            sum(scaled(self.x_axis, local.0), scaled(self.y_axis, local.1)),
            scaled(self.z_axis, local.2),
        )
    }

    /// A point of the grid, in build space.
    pub open spec fn build_point(self, local: Point) -> Point {
        sum(self.direction(local), self.origin)
    }

    /// A direction of the grid carried along by a turn: turned back, taken into
    /// build space, and turned.
    pub open spec fn carried_direction(self, local: Point, yaw: int) -> Point {
        turned(self.direction(turned(local, -yaw)), yaw)
    }

    /// The grid carried along by a turn and a move: its rotation is conjugated,
    /// and its origin gives way for what its points move by themselves.
    pub open spec fn carried(self, yaw: int, step: Point) -> Self {
        ExactGrid {
            x_axis: self.carried_direction((1, 0, 0), yaw),
            y_axis: self.carried_direction((0, 1, 0), yaw),
            z_axis: self.carried_direction((0, 0, 1), yaw),
            origin: sum(
                sum(turned(self.origin, yaw), scaled(step, self.scale)),
                scaled(self.carried_direction(step, yaw), -1),
            ),
            scale: self.scale,
        }
    }
}

/// How far a document moves, in ticks.
pub open spec fn step_of(translation: GridVec) -> Point {
    moved_point((0, 0, 0), 0, translation)
}

/// Directions add up.
proof fn lemma_direction_adds(grid: ExactGrid, a: Point, b: Point)
    ensures
        grid.direction(sum(a, b)) == sum(grid.direction(a), grid.direction(b)),
{
    let (x, y, z) = (grid.x_axis, grid.y_axis, grid.z_axis);
    lemma_scaled_adds(x, a.0, b.0);
    lemma_scaled_adds(y, a.1, b.1);
    lemma_scaled_adds(z, a.2, b.2);
}

/// Scaling spreads over a sum of factors.
proof fn lemma_scaled_adds(v: Point, a: int, b: int)
    ensures
        scaled(v, a + b) == sum(scaled(v, a), scaled(v, b)),
        scaled(v, -a) == scaled(scaled(v, a), -1),
{
    assert(v.0 * (a + b) == v.0 * a + v.0 * b) by (nonlinear_arith);
    assert(v.1 * (a + b) == v.1 * a + v.1 * b) by (nonlinear_arith);
    assert(v.2 * (a + b) == v.2 * a + v.2 * b) by (nonlinear_arith);
    assert(v.0 * (-a) == (v.0 * a) * -1) by (nonlinear_arith);
    assert(v.1 * (-a) == (v.1 * a) * -1) by (nonlinear_arith);
    assert(v.2 * (-a) == (v.2 * a) * -1) by (nonlinear_arith);
}

/// Turning spreads over sums and factors.
proof fn lemma_turned_adds(a: Point, b: Point, factor: int, yaw: int)
    ensures
        turned(sum(a, b), yaw) == sum(turned(a, yaw), turned(b, yaw)),
        turned(scaled(a, factor), yaw) == scaled(turned(a, yaw), factor),
        turned(turned(a, yaw), -yaw) == a,
        turned(turned(a, -yaw), yaw) == a,
{
    assert((-a.0) * factor == -(a.0 * factor)) by (nonlinear_arith);
    assert((-a.2) * factor == -(a.2 * factor)) by (nonlinear_arith);
}

/// A direction along one axis is that axis, as many times.
proof fn lemma_axis_direction(grid: ExactGrid, v: Point, factor: int)
    ensures
        grid.direction(scaled(v, factor)) == scaled(grid.direction(v), factor),
{
    let (x, y, z) = (grid.x_axis, grid.y_axis, grid.z_axis);
    lemma_three_terms(x.0, y.0, z.0, v, factor);
    lemma_three_terms(x.1, y.1, z.1, v, factor);
    lemma_three_terms(x.2, y.2, z.2, v, factor);
}

/// A factor spreads over three products.
proof fn lemma_three_terms(a: int, b: int, c: int, v: Point, factor: int)
    ensures
        a * (v.0 * factor) + b * (v.1 * factor) + c * (v.2 * factor) == (a * v.0 + b * v.1 + c
            * v.2) * factor,
{
    let (x, y, z) = v;
    let (p, q, r) = (a * x, b * y, c * z);
    assert(a * (x * factor) == (a * x) * factor) by (nonlinear_arith);
    assert(b * (y * factor) == (b * y) * factor) by (nonlinear_arith);
    assert(c * (z * factor) == (c * z) * factor) by (nonlinear_arith);
    assert((p + q + r) * factor == p * factor + q * factor + r * factor) by (nonlinear_arith);
}

/// A point is the sum of its coordinates along the axes.
proof fn lemma_point_parts(v: Point)
    ensures
        v == sum(sum(scaled((1, 0, 0), v.0), scaled((0, 1, 0), v.1)), scaled((0, 0, 1), v.2)),
{
}

/// A carried grid's directions are the carried directions.
proof fn lemma_carried_direction(grid: ExactGrid, yaw: int, step: Point, v: Point)
    ensures
        grid.carried(yaw, step).direction(v) == grid.carried_direction(v, yaw),
{
    let (ex, ey, ez): (Point, Point, Point) = ((1, 0, 0), (0, 1, 0), (0, 0, 1));
    let back = -yaw;
    let (bx, by, bz) = (turned(ex, back), turned(ey, back), turned(ez, back));
    lemma_point_parts(v);
    let xy = sum(scaled(ex, v.0), scaled(ey, v.1));
    lemma_turned_adds(xy, scaled(ez, v.2), 0, back);
    lemma_turned_adds(scaled(ex, v.0), scaled(ey, v.1), 0, back);
    lemma_turned_adds(ex, ex, v.0, back);
    lemma_turned_adds(ey, ey, v.1, back);
    lemma_turned_adds(ez, ez, v.2, back);
    let (dx, dy, dz) = (scaled(bx, v.0), scaled(by, v.1), scaled(bz, v.2));
    assert(turned(v, back) == sum(sum(dx, dy), dz));
    lemma_direction_adds(grid, sum(dx, dy), dz);
    lemma_direction_adds(grid, dx, dy);
    lemma_axis_direction(grid, bx, v.0);
    lemma_axis_direction(grid, by, v.1);
    lemma_axis_direction(grid, bz, v.2);
    let (gx, gy, gz) = (grid.direction(bx), grid.direction(by), grid.direction(bz));
    lemma_turned_adds(sum(scaled(gx, v.0), scaled(gy, v.1)), scaled(gz, v.2), 0, yaw);
    lemma_turned_adds(scaled(gx, v.0), scaled(gy, v.1), 0, yaw);
    lemma_turned_adds(gx, gx, v.0, yaw);
    lemma_turned_adds(gy, gy, v.1, yaw);
    lemma_turned_adds(gz, gz, v.2, yaw);
}

/// A point that moves within a grid that is carried along moves once in build space.
pub proof fn carried_grids_move_points_once(
    grid: ExactGrid,
    yaw: int,
    translation: GridVec,
    local: Point,
)
    ensures
        grid.carried(yaw, step_of(translation)).build_point(moved_point(local, yaw, translation))
            == sum(
            turned(grid.build_point(local), yaw),
            scaled(step_of(translation), grid.scale),
        ),
{
    let step = step_of(translation);
    let after = grid.carried(yaw, step);
    let there = moved_point(local, yaw, translation);
    assert(there == sum(turned(local, yaw), step));
    lemma_direction_adds(after, turned(local, yaw), step);
    lemma_carried_direction(grid, yaw, step, turned(local, yaw));
    lemma_carried_direction(grid, yaw, step, step);
    lemma_turned_adds(local, local, 0, yaw);
    lemma_turned_adds(grid.direction(local), grid.origin, 0, yaw);
}

/// Turning and moving a document turns and moves every part once in build
/// space, whatever grid it stands on, where grids are carried along exactly.
pub proof fn documents_turn_once_in_build_space(
    before: &CreationDocument,
    after: &CreationDocument,
    yaw: u8,
    translation: GridVec,
    motion: CardinalMotion,
    grids: Seq<ExactGrid>,
    part: int,
)
    requires
        before.turned_into(yaw, translation, motion, after),
        0 <= part < before.parts@.len() == before.part_frames@.len(),
        before.part_frames@[part] < grids.len(),
    ensures
        ({
            let was = pose_of(pose_doc_in(before.parts@[part])).translation_ticks.point();
            let now = pose_of(pose_doc_in(after.parts@[part])).translation_ticks.point();
            let grid = grids[before.part_frames@[part] as int];
            let carried = grids[after.part_frames@[part] as int].carried(
                yaw as int,
                step_of(translation),
            );
            carried.build_point(now) == sum(
                turned(grid.build_point(was), yaw as int),
                scaled(step_of(translation), grid.scale),
            )
        }),
{
    let was = pose_of(pose_doc_in(before.parts@[part])).translation_ticks.point();
    assert(part_turned(
        before.parts@[part],
        yaw as int,
        translation,
        motion.rotations@[part],
        after.parts@[part],
    ));
    carried_grids_move_points_once(
        grids[before.part_frames@[part] as int],
        yaw as int,
        translation,
        was,
    );
}

/// The default grid, on which points are build space.
pub open spec fn default_grid() -> ExactGrid {
    ExactGrid {
        x_axis: (1, 0, 0),
        y_axis: (0, 1, 0),
        z_axis: (0, 0, 1),
        origin: (0, 0, 0),
        scale: 1,
    }
}

/// The default grid is carried onto itself, so it stays as it is.
pub proof fn the_default_grid_stays(yaw: int, translation: GridVec)
    ensures
        default_grid().carried(yaw, step_of(translation)) == default_grid(),
{
}

} // verus!
