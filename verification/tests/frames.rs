//! Grids, edit deltas and regions.

use bevy_math::{Quat, Vec3};
use mechanic_core::appearance::{
    MaterialAppearance, MaterialColor, MaterialDye, MaterialFinish, MaterialShift,
};
use mechanic_core::edit::ConstructionEditDelta;
use mechanic_core::frame::{ConstructionFrame, ConstructionFrameId, FrameError, Rotation};
use mechanic_core::framing::{BearingMotion, MovedSpace};
use mechanic_core::graph::ConstructionGraph;
use mechanic_core::grid::{rotate_y_i32, BuildPose, GridRotation, GridVec, Sides};
use mechanic_core::ids::{PartId, RegionId};
use mechanic_core::ordered::OrderedSet;
use mechanic_core::parts::{
    BearingSpec, ConstructionMaterial, FaceKind, FaceOwner, FaceRef, JointHardware, JointKind,
    PartShape, PartSpec, PistonMount, SolidOwner,
};
use mechanic_core::region::{CageVertex, RegionError, ShapeRegion};
use mechanic_core::scalar::{Scalar, Triple};

fn number(value: f32) -> Scalar {
    Scalar::from_bits(value.to_bits())
}

fn value(number: Scalar) -> f32 {
    f32::from_bits(number.to_bits())
}

fn triple(vector: Vec3) -> Triple {
    Triple::new(number(vector.x), number(vector.y), number(vector.z))
}

fn vector(triple: Triple) -> Vec3 {
    Vec3::new(value(triple.x), value(triple.y), value(triple.z))
}

fn frame(translation: Vec3, rotation: Quat) -> ConstructionFrame {
    ConstructionFrame {
        translation: triple(translation),
        rotation: Rotation {
            x: number(rotation.x),
            y: number(rotation.y),
            z: number(rotation.z),
            w: number(rotation.w),
        },
    }
}

fn rotation(frame: ConstructionFrame) -> Quat {
    Quat::from_xyzw(
        value(frame.rotation.x),
        value(frame.rotation.y),
        value(frame.rotation.z),
        value(frame.rotation.w),
    )
}

fn point(frame: ConstructionFrame, local: Vec3) -> Vec3 {
    vector(frame.translation) + rotation(frame) * local
}

fn compose(outer: ConstructionFrame, inner: ConstructionFrame) -> ConstructionFrame {
    frame(
        point(outer, vector(inner.translation)),
        rotation(outer) * rotation(inner),
    )
}

fn inverse(of: ConstructionFrame) -> ConstructionFrame {
    let turn = rotation(of).inverse();
    frame(turn * -vector(of.translation), turn)
}

fn motion(transform: ConstructionFrame, bearing: &BearingSpec) -> BearingMotion {
    let turned = |direction: Triple| triple(rotation(transform) * vector(direction));
    let mut kind = bearing.kind;
    kind.hardware = match kind.hardware {
        JointHardware::Piston {
            blocks,
            stages,
            mount: PistonMount::Side { mount_normal },
        } => JointHardware::Piston {
            blocks,
            stages,
            mount: PistonMount::Side {
                mount_normal: turned(mount_normal),
            },
        },
        other => other,
    };
    BearingMotion {
        anchor: triple(point(transform, vector(bearing.shared_anchor))),
        axis: turned(bearing.axis),
        kind,
    }
}

fn motions(graph: &ConstructionGraph, transform: ConstructionFrame) -> Vec<BearingMotion> {
    graph
        .bearings
        .rows
        .values
        .iter()
        .map(|bearing| motion(transform, bearing))
        .collect()
}

fn composed(graph: &ConstructionGraph, transform: ConstructionFrame) -> Vec<ConstructionFrame> {
    graph
        .frames
        .frames
        .values
        .iter()
        .map(|grid| compose(transform, *grid))
        .collect()
}

fn moved(graph: &ConstructionGraph, transform: ConstructionFrame) -> MovedSpace {
    MovedSpace {
        frames: composed(graph, transform),
        bearings: motions(graph, transform),
        view_to_build: compose(graph.view_to_build(), inverse(transform)),
    }
}

fn set(parts: &[PartId]) -> OrderedSet<PartId> {
    let mut set = OrderedSet::new();
    for part in parts {
        set.insert(*part);
    }
    set
}

fn reframe(
    graph: &mut ConstructionGraph,
    parts: &[PartId],
    transform: ConstructionFrame,
) -> Result<(), FrameError> {
    let grids = composed(graph, transform);
    let joints = motions(graph, transform);
    graph.reframe_parts(&set(parts), &grids, &joints)
}

fn cuboid(sides: [u8; 3], at: [i32; 3]) -> PartSpec {
    PartSpec::bare(
        PartShape::Cuboid {
            dimensions: Sides {
                x: sides[0],
                y: sides[1],
                z: sides[2],
            },
            material: ConstructionMaterial::Steel,
            appearance: MaterialAppearance::baked(),
        },
        BuildPose::from_position_ticks(
            GridVec::new(at[0], at[1], at[2]),
            GridRotation { x: 0, y: 0, z: 0 },
        ),
    )
}

fn unit_region(at: [i32; 3]) -> ShapeRegion {
    ShapeRegion::from_origin_steps(
        GridVec::new(at[0], at[1], at[2]),
        GridVec::new(1, 1, 1),
        ConstructionMaterial::Steel,
    )
    .unwrap()
}

/// A block claimed as a region, both on the grid in use.
fn spawn_and_claim(graph: &mut ConstructionGraph, at: [i32; 3]) -> (PartId, RegionId) {
    let grid = graph.edit_frame_id();
    let part = graph.parts.insert(cuboid([1, 1, 1], at));
    graph.assign_part_frame(part, grid).unwrap();
    let region = graph.regions.insert(unit_region(at));
    graph.frames.region_frames.insert(region, grid);
    graph.region_members.insert(part, region);
    (part, region)
}

#[test]
fn overlapping_local_regions_keep_independent_frame_membership() {
    let mut graph = ConstructionGraph::new();
    let (first_part, first_region) = spawn_and_claim(&mut graph, [1, 1, 1]);
    let offset = frame(Vec3::X * 5.0, Quat::from_rotation_y(0.4));
    let second_frame = graph.add_construction_frame(offset).unwrap();
    graph.set_edit_frame(second_frame).unwrap();
    let (second_part, second_region) = spawn_and_claim(&mut graph, [1, 1, 1]);
    assert_eq!(graph.part_frame_id(second_part), Some(second_frame));
    assert_eq!(graph.region_frame_id(second_region), Some(second_frame));
    assert_eq!(graph.region_of(first_part), Some(first_region));
    assert_eq!(graph.region_of(second_part), Some(second_region));
    assert_eq!(
        graph.region_frame(first_region),
        Some(ConstructionFrame::identity())
    );
    assert_eq!(graph.region_frame(second_region), Some(offset));

    let shift = frame(Vec3::Y * 3.0, Quat::IDENTITY);
    reframe(&mut graph, &[second_part], shift).unwrap();
    assert_eq!(graph.region_of(first_part), Some(first_region));
    assert_eq!(graph.region_of(second_part), Some(second_region));
    assert_eq!(
        graph.region_frame_id(second_region),
        graph.part_frame_id(second_part)
    );
    assert_eq!(
        graph.region_frame(second_region),
        Some(compose(shift, offset))
    );
    graph.plan_compounds(&OrderedSet::new()).unwrap();
}

fn hinged_pair() -> (ConstructionGraph, Vec<PartId>, ConstructionFrame) {
    let mut graph = ConstructionGraph::new();
    let parts: Vec<PartId> = [0, 200]
        .into_iter()
        .map(|x| graph.parts.insert(cuboid([2, 2, 2], [x, 0, 0])))
        .collect();
    let face = |part: PartId, face: FaceKind| FaceRef {
        owner: FaceOwner::Part(part),
        face,
        patch: None,
    };
    graph.bearings.insert(BearingSpec {
        source: face(parts[0], FaceKind::PositiveX),
        target: Some(face(parts[1], FaceKind::NegativeX)),
        shared_anchor: triple(Vec3::X * 0.25),
        axis: triple(Vec3::X),
        kind: JointKind {
            hardware: JointHardware::Rotational,
            owns_head: false,
            translational: false,
            lower: Scalar::negative_infinity(),
            upper: Scalar::infinity(),
        },
        outer_diameter: number(0.25),
        inner_diameter: number(0.1),
    });
    let transform = frame(Vec3::new(5.0, 3.0, -2.0), Quat::from_rotation_y(0.71));
    reframe(&mut graph, &parts, transform).unwrap();
    (graph, parts, transform)
}

fn part_position(graph: &ConstructionGraph, part: PartId) -> Vec3 {
    let ticks = graph.part(part).unwrap().pose.translation_ticks;
    let local = Vec3::new(ticks.x as f32, ticks.y as f32, ticks.z as f32) * 0.0025;
    point(graph.part_frame(part).unwrap(), local)
}

#[test]
fn tool_view_round_trip_preserves_local_poses_and_bearing_geometry() {
    let (graph, parts, _) = hinged_pair();
    let anchor = vector(graph.bearings.rows.values[0].shared_anchor);
    let (mut view, _, _) = hinged_pair();
    let grid = graph.part_frame_id(parts[0]).unwrap();
    let space = moved(&view, inverse(graph.part_frame(parts[0]).unwrap()));
    view.in_edit_frame(grid, &space).unwrap();
    assert!(view.part(parts[0]).unwrap().same(graph.part(parts[0]).unwrap()));
    assert_eq!(view.edit_frame_id(), grid);
    assert_eq!(view.edit_frame(), ConstructionFrame::identity());
    assert!(part_position(&view, parts[1]).abs_diff_eq(Vec3::X * 0.5, 1.0e-5));
    let bearing = view.bearings.rows.values[0];
    assert!(vector(bearing.shared_anchor).abs_diff_eq(Vec3::X * 0.25, 1.0e-5));
    assert!(vector(bearing.axis).abs_diff_eq(Vec3::X, 1.0e-5));
    assert!(
        point(view.view_to_build(), vector(bearing.shared_anchor)).abs_diff_eq(anchor, 1.0e-5)
    );
    let back = moved(&view, view.view_to_build());
    view.canonicalized(&back);
    assert_eq!(view.edit_frame_id(), ConstructionFrameId::default());
    assert_eq!(view.view_to_build(), ConstructionFrame::identity());
    for part in parts {
        assert!(view.part(part).unwrap().same(graph.part(part).unwrap()));
        assert!(part_position(&view, part).abs_diff_eq(part_position(&graph, part), 1.0e-5));
    }
    let restored = view.bearings.rows.values[0];
    let original = graph.bearings.rows.values[0];
    assert!(
        vector(restored.shared_anchor).abs_diff_eq(vector(original.shared_anchor), 1.0e-5)
    );
    assert!(vector(restored.axis).abs_diff_eq(vector(original.axis), 1.0e-5));
}

#[test]
fn missing_edit_frame_does_not_change_active_grid() {
    let mut graph = ConstructionGraph::new();
    assert!(matches!(
        graph.set_edit_frame(ConstructionFrameId(99)),
        Err(FrameError::MissingFrame(_))
    ));
    assert_eq!(graph.edit_frame_id(), ConstructionFrameId::default());
    assert_eq!(graph.edit_frame(), ConstructionFrame::identity());
}

#[test]
fn half_of_a_mechanism_or_of_a_region_cannot_be_reframed() {
    let (mut graph, parts, transform) = hinged_pair();
    assert!(matches!(
        reframe(&mut graph, &parts[..1], transform),
        Err(FrameError::PartialBearing(_))
    ));
    let mut graph = ConstructionGraph::new();
    let (first, region) = spawn_and_claim(&mut graph, [1, 1, 1]);
    let second = graph.parts.insert(cuboid([1, 1, 1], [1, 1, 1]));
    graph.region_members.insert(second, region);
    assert_eq!(
        reframe(&mut graph, &[first], transform),
        Err(FrameError::PartialRegion(region))
    );
    graph.parts.remove(second);
    assert!(matches!(
        reframe(&mut graph, &[second], transform),
        Err(FrameError::MissingPart(_))
    ));
}

#[test]
fn replacements_inherit_from_parts_that_do_not_descend_from_them() {
    let mut graph = ConstructionGraph::new();
    let parts: Vec<PartId> = (0..3)
        .map(|x| graph.parts.insert(cuboid([1, 1, 1], [x, 0, 0])))
        .collect();
    graph.set_edit_source(parts[1], parts[0]).unwrap();
    graph.set_edit_source(parts[2], parts[1]).unwrap();
    assert_eq!(graph.edit_source(parts[2]), Some(parts[1]));
    assert_eq!(
        graph.set_edit_source(parts[0], parts[2]),
        Err(FrameError::CyclicAncestry)
    );
    assert_eq!(
        graph.set_edit_source(parts[0], parts[0]),
        Err(FrameError::CyclicAncestry)
    );
}

fn three_framed_blocks() -> (ConstructionGraph, Vec<PartId>, Vec<RegionId>) {
    let mut graph = ConstructionGraph::new();
    let mut parts = Vec::new();
    let mut regions = Vec::new();
    for (index, x) in [0, 4, 8].into_iter().enumerate() {
        if index < 2 {
            let (part, region) = spawn_and_claim(&mut graph, [2 * x + 1, 1, 1]);
            parts.push(part);
            regions.push(region);
        } else {
            parts.push(graph.parts.insert(cuboid([1, 1, 1], [2 * x + 1, 1, 1])));
        }
    }
    // Both changed and unchanged geometry already use nondefault frames.
    for (part, angle) in [(parts[0], 0.3), (parts[1], -0.6), (parts[2], 0.8)] {
        reframe(
            &mut graph,
            &[part],
            frame(Vec3::ZERO, Quat::from_rotation_y(angle)),
        )
        .unwrap();
    }
    (graph, parts, regions)
}

#[test]
fn reframing_invalidates_only_changed_parts_and_their_owned_regions() {
    let (previous, parts, regions) = three_framed_blocks();
    let (mut current, _, _) = three_framed_blocks();
    reframe(
        &mut current,
        &[parts[0], parts[2]],
        frame(Vec3::new(1.0, 2.0, 3.0), Quat::from_rotation_x(0.7)),
    )
    .unwrap();
    let delta = ConstructionEditDelta::between(&previous, &current);
    assert_eq!(delta.modified.to_vec(), [parts[0], parts[2]]);
    assert_eq!(delta.affected_parts().to_vec(), [parts[0], parts[2]]);
    assert_eq!(delta.region_owned_geometry.to_vec(), [regions[0]]);
    assert!(delta.added.is_empty());
    assert!(delta.removed.is_empty());
    assert!(delta.topology_dependent.is_empty());
    assert_eq!(previous.part_frame(parts[1]), current.part_frame(parts[1]));
}

#[test]
fn part_delta_distinguishes_added_removed_and_modified() {
    let mut previous = ConstructionGraph::new();
    let first = previous.parts.insert(cuboid([1, 1, 1], [0, 0, 0]));
    let mut current = ConstructionGraph::new();
    current.parts.insert(cuboid([1, 1, 1], [0, 0, 0]));
    current.parts.remove(first);
    current.parts.insert(cuboid([1, 1, 1], [1, 0, 0]));

    let delta = ConstructionEditDelta::between(&previous, &current);
    assert_eq!(delta.removed.to_vec(), [first]);
    assert_eq!(delta.added.len(), 1);
    assert!(delta.modified.is_empty());
    let unchanged = ConstructionEditDelta::between(&previous, &previous);
    assert!(unchanged.is_empty());
}

/// One steel block at the origin, claimed as a region.
fn region_over_one_block() -> (ConstructionGraph, RegionId) {
    let mut graph = ConstructionGraph::new();
    let (_, region) = spawn_and_claim(&mut graph, [0, 0, 0]);
    (graph, region)
}

#[test]
fn a_cage_vertex_cannot_be_pushed_out_of_the_region() {
    // Shearing a face outward is exactly what the bounding box forbids.
    let (mut graph, id) = region_over_one_block();
    assert!(
        graph
            .set_region_vertices(
                id,
                vec![CageVertex {
                    index: [1, 1, 1],
                    offset: [5, 0, 0],
                }],
            )
            .is_err(),
        "a corner already at the maximum has nowhere outward to go"
    );
}

#[test]
fn cage_vertices_may_move_inward_and_must_exist() {
    let (mut graph, id) = region_over_one_block();
    let vertex = |index: [u16; 3], offset: [i16; 3]| vec![CageVertex { index, offset }];
    assert_eq!(
        graph.set_region_vertices(id, vertex([1, 1, 1], [-5, 0, 0])),
        Ok(())
    );
    assert_eq!(
        graph.set_region_vertices(id, vertex([1, 1, 1], [5, 0, 0])),
        Err(RegionError::VertexOutsideRegion)
    );
    assert_eq!(
        graph.set_region_vertices(id, vertex([2, 1, 1], [0, 0, 0])),
        Err(RegionError::MissingVertex)
    );
    graph.regions.remove(id);
    assert_eq!(
        graph.set_region_vertices(id, vertex([1, 1, 1], [0, 0, 0])),
        Err(RegionError::MissingRegion)
    );
}

#[test]
fn cage_planes_are_kept_in_order_and_inside() {
    let mut region = ShapeRegion::from_origin_steps(
        GridVec::new(0, 0, 0),
        GridVec::new(4, 1, 1),
        ConstructionMaterial::Wood,
    )
    .unwrap();
    assert_eq!(region.subdivide(0, 3), Ok(()));
    assert_eq!(region.subdivide(0, 1), Ok(()));
    assert_eq!(region.divisions_x, [1, 3]);
    assert_eq!(region.subdivide(0, 3), Err(RegionError::InvalidPlane));
    assert_eq!(region.subdivide(0, 4), Err(RegionError::InvalidPlane));
    assert_eq!(region.subdivide(3, 1), Err(RegionError::UnknownAxis));
    assert_eq!(region.plane_counts(), [4, 2, 2]);
    assert_eq!(
        ShapeRegion::from_origin_steps(
            GridVec::new(0, 0, 0),
            GridVec::new(0, 1, 1),
            ConstructionMaterial::Wood,
        )
        .err(),
        Some(RegionError::EmptyExtent)
    );
}

#[test]
fn a_quarter_turn_takes_x_to_minus_z_and_bounds_are_componentwise() {
    assert_eq!(
        rotate_y_i32(GridVec::new(1, 2, 3), 1).to_array(),
        [3, 2, -1]
    );
    assert_eq!(
        rotate_y_i32(GridVec::new(1, 2, 3), 2).to_array(),
        [-1, 2, -3]
    );
    assert_eq!(
        rotate_y_i32(rotate_y_i32(GridVec::new(1, 2, 3), 1), 3).to_array(),
        [1, 2, 3]
    );
}

#[test]
fn faces_and_solids_stand_on_the_grid_of_their_owner() {
    let mut graph = ConstructionGraph::new();
    let (owned, region) = spawn_and_claim(&mut graph, [1, 1, 1]);
    let part = graph.parts.insert(cuboid([1, 1, 1], [9, 1, 1]));
    let turned = frame(
        Vec3::new(1.0, 2.0, 3.0),
        Quat::from_rotation_y(std::f32::consts::FRAC_PI_2),
    );
    let grid = graph.add_construction_frame(turned).unwrap();
    graph.assign_part_frame(part, grid).unwrap();
    assert_eq!(
        graph.assign_part_frame(owned, grid),
        Err(FrameError::PartialRegion(region))
    );
    let face = |owner| FaceRef {
        owner,
        face: FaceKind::PositiveY,
        patch: None,
    };
    assert_eq!(graph.face_frame(face(FaceOwner::Part(part))), Some(turned));
    assert_eq!(
        graph.face_frame(face(FaceOwner::Ground)),
        Some(ConstructionFrame::identity())
    );
    assert_eq!(graph.owner_frame(SolidOwner::Part(part)), turned);
    assert_eq!(
        graph.owner_frame(SolidOwner::Region(region)),
        ConstructionFrame::identity()
    );
    assert_eq!(
        graph.owner_frame(SolidOwner::Part(PartId {
            index: 99,
            generation: 0,
        })),
        ConstructionFrame::identity()
    );
}

fn pipe(inner_diameter: f32) -> PartSpec {
    PartSpec::bare(
        PartShape::Cylinder {
            outer_diameter: number(0.5),
            inner_diameter: number(inner_diameter),
            length_units: 2,
            sweep_degrees: 360,
            material: ConstructionMaterial::Steel,
            appearance: MaterialAppearance::baked(),
        },
        BuildPose::origin(),
    )
}

#[test]
fn parts_are_compared_by_the_values_of_their_numbers() {
    let with = |inner: f32| {
        let mut graph = ConstructionGraph::new();
        let part = graph.parts.insert(pipe(inner));
        (graph, part)
    };
    let (solid, part) = with(0.0);
    let (negative, _) = with(-0.0);
    assert!(ConstructionEditDelta::between(&solid, &negative).is_empty());
    let (hollow, _) = with(0.25);
    let delta = ConstructionEditDelta::between(&solid, &hollow);
    assert_eq!(delta.modified.to_vec(), [part]);
    let (unknown, _) = with(f32::NAN);
    let delta = ConstructionEditDelta::between(&unknown, &unknown);
    assert_eq!(delta.modified.to_vec(), [part]);
}

#[test]
fn dyes_are_compared_by_the_value_of_their_structure() {
    let dyed = |structure: f32| {
        let color = MaterialColor::Dye(MaterialDye::new([1, 2, 3], number(structure)).unwrap());
        MaterialAppearance {
            color,
            finish: MaterialFinish::Baked,
        }
    };
    assert!(dyed(0.0).equal(dyed(-0.0)));
    assert!(!dyed(0.0).equal(dyed(1.0)));
    assert!(!dyed(0.0).equal(MaterialAppearance::baked()));
    let shifted = |hue: f32| MaterialAppearance {
        color: MaterialColor::Shift(
            MaterialShift::new(number(hue), number(1.0), number(1.0)).unwrap(),
        ),
        finish: MaterialFinish::Painted,
    };
    assert!(shifted(0.0).equal(shifted(-0.0)));
    assert!(!shifted(0.0).equal(shifted(90.0)));
}

#[test]
fn a_delta_read_backwards_removes_what_it_added() {
    let mut previous = ConstructionGraph::new();
    let kept = previous.parts.insert(cuboid([1, 1, 1], [0, 0, 0]));
    let gone = previous.parts.insert(cuboid([1, 1, 1], [200, 0, 0]));
    let mut current = ConstructionGraph::new();
    current.parts.insert(cuboid([1, 1, 1], [0, 100, 0]));
    let slot = current.parts.insert(cuboid([1, 1, 1], [200, 0, 0]));
    current.parts.remove(slot);
    let fresh = current.parts.insert(cuboid([2, 1, 1], [200, 0, 0]));
    let forth = ConstructionEditDelta::between(&previous, &current);
    let back = ConstructionEditDelta::between(&current, &previous);
    assert_eq!(forth.added.to_vec(), [fresh]);
    assert_eq!(forth.removed.to_vec(), [gone]);
    assert_eq!(forth.modified.to_vec(), [kept]);
    assert_eq!(back.added.to_vec(), forth.removed.to_vec());
    assert_eq!(back.removed.to_vec(), forth.added.to_vec());
    assert_eq!(back.modified.to_vec(), forth.modified.to_vec());
    assert!(!forth.is_empty() && !back.is_empty());
}

#[test]
fn bringing_a_view_back_twice_changes_nothing_more() {
    let (graph, parts, _) = hinged_pair();
    let (mut view, _, _) = hinged_pair();
    let grid = graph.part_frame_id(parts[0]).unwrap();
    let space = moved(&view, inverse(graph.part_frame(parts[0]).unwrap()));
    view.in_edit_frame(grid, &space).unwrap();
    let home = moved(&view, view.view_to_build());
    view.canonicalized(&home);
    assert_eq!(
        view.frames.frames.get(ConstructionFrameId::default()),
        Some(&ConstructionFrame::identity())
    );
    assert_eq!(view.frames.members, graph.frames.members);
    assert_eq!(view.frames.frames.keys, graph.frames.frames.keys);
    let joint = view.bearings.rows.values[0];
    let grids = view.frames.frames.values.clone();
    let again = moved(&view, frame(Vec3::X, Quat::IDENTITY));
    view.canonicalized(&again);
    assert_eq!(view.bearings.rows.values[0], joint);
    assert_eq!(view.frames.frames.values, grids);
    assert_eq!(view.edit_frame_id(), ConstructionFrameId::default());
    assert_eq!(view.view_to_build(), ConstructionFrame::identity());
}

#[test]
fn a_region_is_divided_when_its_parts_stand_on_several_grids() {
    let mut graph = ConstructionGraph::new();
    let (_, region) = spawn_and_claim(&mut graph, [1, 1, 1]);
    let part = graph.parts.insert(cuboid([1, 1, 1], [2, 1, 1]));
    let offset = frame(Vec3::X * 5.0, Quat::from_rotation_y(0.4));
    let other = graph.add_construction_frame(offset).unwrap();
    graph.assign_part_frame(part, other).unwrap();
    assert!(graph.regions_are_undivided());
    graph.region_members.insert(part, region);
    assert!(!graph.regions_are_undivided());
}
