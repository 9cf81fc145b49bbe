//! Saving, combining, moving and loading creations.

use bevy_math::{Quat, Vec3};
use mechanic_core::appearance::{MaterialAppearance, MaterialColor, MaterialDye, MaterialFinish};
use mechanic_core::creation::doc::{
    BearingDimensionError, BearingSocketDoc, ConstructionFrameDoc, CreationDocument, CreationError,
    CylinderDimensionError, DimensionError, EdgeChainRefDoc, FaceOwnerDoc, GearboxConfigDoc,
    GraphError, InputBindingError, InputConfigurationDoc, JointCheck, LayerError, LinearBearingError,
    NumericParameterDoc, PartDoc, PartError, PipeBendDimensionError, PipeJunctionError, PoseDoc,
    RingCheck, SolidOwnerDoc, TopologySourceDoc, CREATION_FORMAT_VERSION,
};
use mechanic_core::creation::inputs::offset_input_docs;
use mechanic_core::creation::load::{LoadChecks, LoadedCreation};
use mechanic_core::creation::snapshot::CanonicalSpace;
use mechanic_core::creation::transform::CardinalMotion;
use mechanic_core::drive::{
    DriveDwell, DriveKey, DriveLimits, DriveLimitsError, DriveProgram, DriveProgramError,
    DriveRelease, DriveState, DriveTarget, DriveTrigger,
};
use mechanic_core::frame::{ConstructionFrame, ConstructionFrameId, FrameError, Rotation};
use mechanic_core::framing::{BearingMotion, MovedSpace};
use mechanic_core::gearbox::{GearKey, GearKeyChord, GearboxConfig, GearboxError, ShiftMode};
use mechanic_core::graph::{ConstructionGraph, GearLane};
use mechanic_core::grid::{BuildPose, GridRotation, GridVec, Sides};
use mechanic_core::ids::{BearingId, PartId, RegionId};
use mechanic_core::ordered::OrderedSet;
use mechanic_core::parts::{
    ActuatorAssignment, AnalogMapping, AnalogRange, BearingSocket, BearingSpec, ButtonMode,
    ConstructionMaterial, DimensionLinkId, DriveLinkSpec, DriveParameter, EdgeChainRef,
    EdgeTreatment, EngineKind, FaceKind, FaceOwner, FaceRef, GearParameter, InputConfiguration,
    InputSeatLinkSpec, InputSize, JointHardware, JointKind, LayerFace, MaterialLayer,
    NumericParameter, PartShape, PartSpec, RigidLinkSpec, SeatControllerLinkSpec, ShapeFeature,
    SolidOwner, TopologyKey, TopologySource, WeldSpec,
};
use mechanic_core::region::{CageVertex, RegionError, ShapeRegion};
use mechanic_core::scalar::{Scalar, Triple};

fn number(value: f32) -> Scalar {
    Scalar::from_bits(value.to_bits())
}

fn value(number: Scalar) -> f32 {
    f32::from_bits(number.to_bits())
}

fn triple(vector: Vec3) -> Triple {
    Triple::new(number(vector.x), number(vector.y), number(vector.z))
}

fn vector(triple: Triple) -> Vec3 {
    Vec3::new(value(triple.x), value(triple.y), value(triple.z))
}

fn rotation(turn: Quat) -> Rotation {
    Rotation {
        x: number(turn.x),
        y: number(turn.y),
        z: number(turn.z),
        w: number(turn.w),
    }
}

fn quaternion(turn: Rotation) -> Quat {
    Quat::from_xyzw(value(turn.x), value(turn.y), value(turn.z), value(turn.w))
}

fn frame(translation: Vec3, turn: Quat) -> ConstructionFrame {
    ConstructionFrame {
        translation: triple(translation),
        rotation: rotation(turn),
    }
}

fn point(frame: ConstructionFrame, local: Vec3) -> Vec3 {
    vector(frame.translation) + quaternion(frame.rotation) * local
}

fn direction(frame: ConstructionFrame, local: Vec3) -> Vec3 {
    quaternion(frame.rotation) * local
}

fn compose(outer: ConstructionFrame, inner: ConstructionFrame) -> ConstructionFrame {
    frame(
        point(outer, vector(inner.translation)),
        quaternion(outer.rotation) * quaternion(inner.rotation),
    )
}

fn inverse(of: ConstructionFrame) -> ConstructionFrame {
    let turn = quaternion(of.rotation).inverse();
    frame(turn * -vector(of.translation), turn)
}

fn turned_kind(transform: ConstructionFrame, mut kind: JointKind) -> JointKind {
    if let JointHardware::Linear {
        width,
        mount_normal,
        face,
    } = kind.hardware
    {
        kind.hardware = JointHardware::Linear {
            width,
            mount_normal: triple(direction(transform, vector(mount_normal))),
            face,
        };
    }
    kind
}

fn motions(graph: &ConstructionGraph, transform: ConstructionFrame) -> Vec<BearingMotion> {
    graph
        .bearings
        .rows
        .values
        .iter()
        .map(|bearing| BearingMotion {
            anchor: triple(point(transform, vector(bearing.shared_anchor))),
            axis: triple(direction(transform, vector(bearing.axis))),
            kind: turned_kind(transform, bearing.kind),
        })
        .collect()
}

fn composed(graph: &ConstructionGraph, transform: ConstructionFrame) -> Vec<ConstructionFrame> {
    graph
        .frames
        .frames
        .values
        .iter()
        .map(|grid| compose(transform, *grid))
        .collect()
}

fn reframe(graph: &mut ConstructionGraph, parts: &[PartId], transform: ConstructionFrame) {
    let mut set = OrderedSet::new();
    for part in parts {
        set.insert(*part);
    }
    let grids = composed(graph, transform);
    let joints = motions(graph, transform);
    graph.reframe_parts(&set, &grids, &joints).unwrap();
}

fn save(graph: &ConstructionGraph, name: &str, sockets: &[BearingSocket]) -> CreationDocument {
    let back = graph.view_to_build();
    let space = CanonicalSpace {
        frames: composed(graph, back),
        bearings: motions(graph, back),
        sockets: sockets
            .iter()
            .map(|socket| BearingMotion {
                anchor: triple(point(back, vector(socket.anchor))),
                axis: triple(direction(back, vector(socket.axis))),
                kind: turned_kind(back, socket.kind),
            })
            .collect(),
    };
    CreationDocument::from_graph(graph, name, &sockets.to_vec(), &space)
}

fn checked(doc: &ConstructionFrameDoc) -> Result<ConstructionFrame, FrameError> {
    let turn = quaternion(doc.rotation);
    if !vector(doc.translation).is_finite()
        || !turn.is_finite()
        || (turn.length_squared() - 1.0).abs() > 1.0e-4
    {
        return Err(FrameError::InvalidTransform);
    }
    Ok(frame(vector(doc.translation), turn))
}

fn pose_row(part: &PartDoc) -> PoseDoc {
    match part {
        PartDoc::Cuboid { pose, .. }
        | PartDoc::Cylinder { pose, .. }
        | PartDoc::PipeBend { pose, .. }
        | PartDoc::PipeJunction { pose, .. }
        | PartDoc::Controller { pose }
        | PartDoc::Engine { pose, .. }
        | PartDoc::Transmission { pose, .. }
        | PartDoc::Servo { pose }
        | PartDoc::Seat { pose }
        | PartDoc::Dial { pose, .. }
        | PartDoc::Button { pose, .. }
        | PartDoc::Input { pose }
        | PartDoc::DimensionLink { pose, .. } => *pose,
    }
}

fn passing() -> JointCheck {
    JointCheck {
        dimensions: Ok(()),
        axis_fits: true,
        anchor_fits: true,
    }
}

fn normal(face: FaceKind) -> Vec3 {
    match face {
        FaceKind::PositiveX => Vec3::X,
        FaceKind::NegativeX => Vec3::NEG_X,
        FaceKind::PositiveY => Vec3::Y,
        FaceKind::NegativeY => Vec3::NEG_Y,
        FaceKind::PositiveZ => Vec3::Z,
        FaceKind::NegativeZ => Vec3::NEG_Z,
    }
}

/// Measures a ring against the face of the block that it sits on.
fn ring_check(document: &CreationDocument, ring: &BearingSocketDoc) -> RingCheck {
    let axis = vector(ring.axis);
    let anchor = vector(ring.anchor);
    let mut joint = passing();
    joint.axis_fits = ring.kind == rotational()
        || (axis.is_finite() && (axis.length() - 1.0).abs() < 1.0e-3);
    joint.anchor_fits = anchor.is_finite();
    let outward = normal(ring.source.face);
    if let FaceOwnerDoc::Part(row) = ring.source.owner {
        if let Some(PartDoc::Cuboid {
            dimensions, pose, ..
        }) = document.parts.get(row as usize)
        {
            let grid = document.frames[document.part_frames[row as usize] as usize];
            let grid = frame(vector(grid.translation), quaternion(grid.rotation));
            let [x, y, z] = pose.translation_ticks;
            let centre = Vec3::new(x as f32, y as f32, z as f32) * 0.0025;
            let half = Vec3::new(
                f32::from(dimensions[0]),
                f32::from(dimensions[1]),
                f32::from(dimensions[2]),
            ) * 0.125;
            let local = point(inverse(grid), anchor) - centre;
            joint.anchor_fits = joint.anchor_fits
                && (local.dot(outward) - half.dot(outward.abs())).abs() < 1.0e-3
                && (local.abs() - half).max_element() < 1.0e-3;
            if ring.kind.hardware == JointHardware::Suspension {
                joint.axis_fits =
                    joint.axis_fits && direction(grid, outward).dot(axis).abs() > 1.0 - 1.0e-3;
            }
        }
    }
    let rail = match ring.kind.hardware {
        JointHardware::Linear { mount_normal, .. }
            if vector(mount_normal).dot(axis).abs() > 1.0e-3 =>
        {
            Err(LinearBearingError)
        }
        _ => Ok(()),
    };
    RingCheck { rail, joint }
}

fn measured(document: &CreationDocument) -> LoadChecks {
    LoadChecks {
        frames: document.frames.iter().map(checked).collect(),
        parts: document.parts.iter().map(|_| Ok(())).collect(),
        joints: document.bearings.iter().map(|_| passing()).collect(),
        rings: document
            .sockets
            .iter()
            .map(|ring| ring_check(document, ring))
            .collect(),
    }
}

fn load(document: CreationDocument) -> Result<LoadedCreation, CreationError> {
    let checks = measured(&document);
    let owners = document.region_owners();
    document.into_graph(&checks, &owners)
}

fn level() -> GridRotation {
    GridRotation { x: 0, y: 0, z: 0 }
}

/// A pose at whole grid units.
fn at_units(x: i32, y: i32, z: i32) -> BuildPose {
    BuildPose::from_position_ticks(GridVec::new(x * 100, y * 100, z * 100), level())
}

/// A pose at half grid units.
fn at_halves(x: i32, y: i32, z: i32) -> BuildPose {
    BuildPose::from_position_ticks(GridVec::new(x * 50, y * 50, z * 50), level())
}

fn block(sides: [u8; 3], material: ConstructionMaterial) -> PartShape {
    PartShape::Cuboid {
        dimensions: Sides {
            x: sides[0],
            y: sides[1],
            z: sides[2],
        },
        material,
        appearance: MaterialAppearance::baked(),
    }
}

fn spawn(graph: &mut ConstructionGraph, shape: PartShape, pose: BuildPose) -> PartId {
    graph.parts.insert(PartSpec::bare(shape, pose))
}

fn spawn_block(graph: &mut ConstructionGraph, sides: [u8; 3], pose: BuildPose) -> PartId {
    spawn(graph, block(sides, ConstructionMaterial::Steel), pose)
}

fn claim(graph: &mut ConstructionGraph, region: ShapeRegion, parts: &[PartId]) -> RegionId {
    let id = graph.regions.insert(region);
    graph
        .frames
        .region_frames
        .insert(id, ConstructionFrameId(0));
    for part in parts {
        graph.region_members.insert(*part, id);
    }
    id
}

fn unit_region(at: [i32; 3]) -> ShapeRegion {
    ShapeRegion::from_origin_steps(
        GridVec::new(at[0], at[1], at[2]),
        GridVec::new(1, 1, 1),
        ConstructionMaterial::Steel,
    )
    .unwrap()
}

fn face(part: PartId, face: FaceKind) -> FaceRef {
    FaceRef {
        owner: FaceOwner::Part(part),
        face,
        patch: None,
    }
}

fn ground() -> FaceRef {
    FaceRef {
        owner: FaceOwner::Ground,
        face: FaceKind::PositiveY,
        patch: None,
    }
}

fn weld(graph: &mut ConstructionGraph, first: FaceRef, second: FaceRef) {
    graph.welds.insert(WeldSpec { first, second });
}

fn rotational() -> JointKind {
    JointKind {
        hardware: JointHardware::Rotational,
        owns_head: false,
        translational: false,
        lower: Scalar::negative_infinity(),
        upper: Scalar::infinity(),
    }
}

fn rail(normal: Vec3) -> JointKind {
    JointKind {
        hardware: JointHardware::Linear {
            width: number(0.25),
            mount_normal: triple(normal),
            face: 0,
        },
        owns_head: false,
        translational: true,
        lower: number(0.0),
        upper: number(1.0),
    }
}

fn socket(kind: JointKind, axis: Vec3, source: FaceRef, anchor: Vec3) -> BearingSocket {
    BearingSocket {
        kind,
        axis: triple(axis),
        source,
        anchor: triple(anchor),
        outer_diameter: number(0.25),
        inner_diameter: number(0.1),
    }
}

/// Extends an engine or transmission by one transmission.
fn extend(graph: &mut ConstructionGraph, parent: PartId, pose: BuildPose) -> PartId {
    let child = spawn(graph, PartShape::Transmission, pose);
    graph.transmission_parents.insert(child, parent);
    let weld = graph.welds.insert(WeldSpec {
        first: face(parent, FaceKind::PositiveZ),
        second: face(child, FaceKind::NegativeZ),
    });
    graph.transmission_welds.insert(child, weld);
    child
}

fn keys(graph: &ConstructionGraph) -> Vec<PartId> {
    graph.parts.rows.keys.clone()
}

fn local_position(graph: &ConstructionGraph, part: PartId) -> Vec3 {
    let ticks = graph.part(part).unwrap().pose.translation_ticks;
    Vec3::new(ticks.x as f32, ticks.y as f32, ticks.z as f32) * 0.0025
}

fn part_position(graph: &ConstructionGraph, part: PartId) -> Vec3 {
    point(graph.part_frame(part).unwrap(), local_position(graph, part))
}

fn part_rotation(graph: &ConstructionGraph, part: PartId) -> Quat {
    let turns = graph.part(part).unwrap().pose.rotation;
    assert_eq!((turns.x, turns.z), (0, 0));
    quaternion(graph.part_frame(part).unwrap().rotation)
        * Quat::from_rotation_y(f32::from(turns.y) * std::f32::consts::FRAC_PI_2)
}

/// A slab on the ground with a driven rotor, a control block, a hollow
/// sliced cylinder and one loose ring.
fn sample() -> (ConstructionGraph, Vec<BearingSocket>) {
    let mut graph = ConstructionGraph::new();
    let base = spawn_block(&mut graph, [4, 2, 4], at_units(0, 1, 0));
    let rotor = spawn_block(&mut graph, [2, 2, 2], at_units(0, 3, 0));
    let mut turned = at_halves(2, 6, 0);
    turned.rotation.y = 1;
    let controller = spawn(&mut graph, PartShape::Controller, turned);
    let column = spawn(
        &mut graph,
        PartShape::Cylinder {
            outer_diameter: number(1.0),
            inner_diameter: number(0.5),
            length_units: 3,
            sweep_degrees: 255,
            material: ConstructionMaterial::Steel,
            appearance: MaterialAppearance::baked(),
        },
        at_units(-8, 4, 0),
    );
    weld(&mut graph, face(base, FaceKind::NegativeY), ground());
    graph.rigid_links.insert(RigidLinkSpec {
        first: base,
        second: column,
    });
    weld(
        &mut graph,
        face(base, FaceKind::PositiveY),
        face(controller, FaceKind::NegativeY),
    );
    let bearing = graph.bearings.insert(BearingSpec {
        source: face(base, FaceKind::PositiveY),
        target: Some(face(rotor, FaceKind::NegativeY)),
        shared_anchor: triple(Vec3::new(0.0, 0.5, 0.0)),
        axis: triple(Vec3::Y),
        kind: rotational(),
        outer_diameter: number(0.5),
        inner_diameter: number(0.2),
    });
    let program = DriveProgram::new(
        &[
            DriveState::new(DriveTarget::Angle(number(0.0))).unwrap(),
            DriveState::new(DriveTarget::Speed(number(2.5)))
                .unwrap()
                .with_dwell(Some(DriveDwell::new(number(1.5), Some(0)).unwrap()))
                .with_trigger(Some(DriveTrigger::new(
                    DriveKey::new('w').unwrap(),
                    DriveRelease::RevertTo(0),
                ))),
        ],
        true,
    )
    .unwrap();
    graph.drive_links.insert(DriveLinkSpec {
        linear_limits: None,
        controller,
        bearing,
        reversed: true,
        actuator: ActuatorAssignment::Unpowered,
        limits: DriveLimits::new(
            number(4.0),
            Scalar::infinity(),
            Some((number(-1.0), number(1.0))),
        )
        .unwrap(),
        program,
        name: String::from("Tipper arm"),
    });
    let mut ring = socket(
        rotational(),
        Vec3::ZERO,
        face(rotor, FaceKind::PositiveY),
        Vec3::Y,
    );
    ring.outer_diameter = number(0.3);
    ring.inner_diameter = number(0.05);
    (graph, vec![ring])
}

fn sample_document() -> CreationDocument {
    let (graph, _) = sample();
    save(&graph, "Test Rig", &[])
}

#[test]
fn sample_creation_survives_a_serialized_round_trip() {
    let (graph, sockets) = sample();
    let document = save(&graph, "Test Rig", &sockets);
    let restored = load(save(&graph, "Test Rig", &sockets)).expect("the document rebuilds");

    assert_eq!(restored.name, "Test Rig");
    assert_eq!(restored.sockets.len(), 1);
    assert_eq!(restored.graph.parts.len(), graph.parts.len());
    assert_eq!(restored.graph.welds.len(), graph.welds.len());
    assert_eq!(restored.graph.rigid_links.len(), graph.rigid_links.len());
    assert_eq!(restored.graph.bearings.len(), graph.bearings.len());
    assert_eq!(restored.graph.drive_links.len(), graph.drive_links.len());
    assert_eq!(
        save(&restored.graph, "Test Rig", &restored.sockets),
        document,
        "a second capture of the rebuilt graph must be identical"
    );
}

#[test]
fn reusable_creation_remaps_every_dimension_link_id() {
    let mut graph = ConstructionGraph::new();
    for id in [2, 9] {
        spawn(
            &mut graph,
            PartShape::DimensionLink {
                id: DimensionLinkId(id),
            },
            BuildPose::origin(),
        );
    }
    let mut document = save(&graph, "Links", &[]);
    let mut next_id = 40;
    document.remap_dimension_links(&mut next_id);
    let restored = load(document).unwrap().graph;
    let links = restored
        .parts
        .rows
        .values
        .iter()
        .map(|part| part.shape)
        .collect::<Vec<_>>();
    assert!(links.contains(&PartShape::DimensionLink {
        id: DimensionLinkId(40)
    }));
    assert!(links.contains(&PartShape::DimensionLink {
        id: DimensionLinkId(41)
    }));
    assert_eq!(next_id, 42);
}

#[test]
fn engine_kinds_survive_a_serialized_round_trip() {
    let mut graph = ConstructionGraph::new();
    for (kind, x) in [(EngineKind::Gas, -2), (EngineKind::Electric, 2)] {
        spawn(&mut graph, PartShape::Engine { kind }, at_units(x, 2, 0));
    }
    let document = save(&graph, "Engines", &[]);
    assert_eq!(document.version, CREATION_FORMAT_VERSION);
    let restored = load(document).expect("the engine document rebuilds");
    let kinds = restored
        .graph
        .parts
        .rows
        .values
        .iter()
        .map(|part| match part.shape {
            PartShape::Engine { kind } => kind,
            _ => panic!("engine document rebuilt a different part kind"),
        })
        .collect::<Vec<_>>();
    assert_eq!(kinds, [EngineKind::Gas, EngineKind::Electric]);
}

#[test]
fn servo_seat_input_and_their_routes_survive_a_round_trip() {
    let mut graph = ConstructionGraph::new();
    let servo = spawn(&mut graph, PartShape::Servo, BuildPose::origin());
    let input = spawn(&mut graph, PartShape::Input, BuildPose::origin());
    let seat = spawn(&mut graph, PartShape::Seat, BuildPose::origin());
    let controller = spawn(&mut graph, PartShape::Controller, BuildPose::origin());
    graph
        .input_seat_links
        .insert(InputSeatLinkSpec { input, seat });
    graph
        .seat_controller_links
        .insert(SeatControllerLinkSpec { seat, controller });

    let restored = load(save(&graph, "Controls", &[])).unwrap().graph;
    assert_eq!(
        restored
            .parts
            .rows
            .values
            .iter()
            .filter(|part| matches!(part.shape, PartShape::Servo))
            .count(),
        1
    );
    assert_eq!(restored.input_seat_links.len(), 1);
    assert_eq!(restored.seat_controller_links.len(), 1);
    assert_eq!(
        restored.input_seat_links.rows.values[0],
        InputSeatLinkSpec { input, seat }
    );
    assert!(
        restored.part(servo).is_some(),
        "canonical replay keeps part ids"
    );
}

#[test]
fn obsolete_creation_versions_are_rejected() {
    for version in 1..CREATION_FORMAT_VERSION {
        let mut document = save(&ConstructionGraph::new(), "obsolete", &[]);
        document.version = version;
        document.name = format!("Obsolete {version}");
        assert!(matches!(
            load(document),
            Err(CreationError::UnsupportedVersion(found)) if found == version
        ));
    }
}

#[test]
fn current_version_round_trips_all_construction_materials() {
    let all = [
        ConstructionMaterial::Steel,
        ConstructionMaterial::Aluminium,
        ConstructionMaterial::Rubber,
        ConstructionMaterial::Wood,
    ];
    let mut graph = ConstructionGraph::new();
    for (index, material) in all.into_iter().enumerate() {
        let pose = at_units(i32::try_from(index).unwrap() * 8, 0, 0);
        spawn(&mut graph, block([1, 1, 1], material), pose);
    }
    let document = save(&graph, "Materials", &[]);
    assert_eq!(document.version, CREATION_FORMAT_VERSION);
    let restored = load(document).unwrap();
    let materials = restored
        .graph
        .parts
        .rows
        .values
        .iter()
        .filter_map(|part| match part.shape {
            PartShape::Cuboid { material, .. } => Some(material),
            _ => None,
        })
        .collect::<Vec<_>>();
    assert_eq!(materials, all);
}

#[test]
fn current_version_round_trips_construction_appearances() {
    let painted = MaterialAppearance::new(
        MaterialColor::Dye(MaterialDye::new([224, 86, 31], number(2.0)).unwrap()),
        MaterialFinish::Anodised,
    );
    let mut graph = ConstructionGraph::new();
    spawn(
        &mut graph,
        PartShape::Cuboid {
            dimensions: Sides { x: 1, y: 1, z: 1 },
            material: ConstructionMaterial::Steel,
            appearance: painted,
        },
        BuildPose::origin(),
    );
    let document = save(&graph, "Chroma", &[]);
    assert!(matches!(
        &document.parts[0],
        PartDoc::Cuboid { appearance, .. } if *appearance == painted
    ));
    let restored = load(document).unwrap();
    assert!(matches!(
        restored.graph.parts.rows.values[0].shape,
        PartShape::Cuboid { appearance, .. } if appearance == painted
    ));
}

#[test]
fn rebuilt_creation_compiles_to_the_same_bodies() {
    let (graph, sockets) = sample();
    let expected = graph.plan_compounds(&OrderedSet::new()).unwrap();
    let restored = load(save(&graph, "Test Rig", &sockets)).unwrap();
    let actual = restored.graph.plan_compounds(&OrderedSet::new()).unwrap();
    assert_eq!(actual.compounds.len(), expected.compounds.len());
    assert_eq!(actual.compound_of, expected.compound_of);
    assert_eq!(restored.graph.bearings.len(), graph.bearings.len());
    assert_eq!(restored.graph.drive_links.len(), graph.drive_links.len());
}

#[test]
fn unlimited_torque_round_trips_without_encoding_an_infinity() {
    let document = sample_document();
    assert_eq!(document.drive_links[0].limits.max_torque_newton_meters, None);
    let restored = load(document).unwrap();
    let link = &restored.graph.drive_links.rows.values[0];
    assert!(value(link.limits.max_torque_newton_meters()).is_infinite());
    assert_eq!(
        link.limits.angle_limits(),
        Some((number(-1.0), number(1.0)))
    );
    assert_eq!(link.name, "Tipper arm");
    assert!(link.reversed);
    assert!(link.program.loops());
    assert_eq!(link.program.len(), 2);
    let triggered = link.program.state(1).expect("the second state exists");
    assert_eq!(
        triggered.trigger().map(|trigger| trigger.key().symbol()),
        Some('W')
    );
    assert_eq!(
        triggered.trigger().map(DriveTrigger::release),
        Some(DriveRelease::RevertTo(0))
    );
    assert_eq!(
        triggered
            .dwell()
            .map(|dwell| (dwell.seconds(), dwell.next())),
        Some((number(1.5), Some(0)))
    );
}

#[test]
fn hollow_sliced_cylinder_keeps_its_bore_and_sweep() {
    let restored = load(sample_document()).unwrap();
    let (outer, inner, length, sweep) = restored
        .graph
        .parts
        .rows
        .values
        .iter()
        .find_map(|part| match part.shape {
            PartShape::Cylinder {
                outer_diameter,
                inner_diameter,
                length_units,
                sweep_degrees,
                ..
            } => Some((outer_diameter, inner_diameter, length_units, sweep_degrees)),
            _ => None,
        })
        .expect("the rebuilt graph keeps its cylinder");
    assert!((value(outer) - 1.0).abs() < 1.0e-6);
    assert!((value(inner) - 0.5).abs() < 1.0e-6);
    assert_eq!(length, 3);
    assert_eq!(sweep, 255);
}

#[test]
fn current_version_round_trips_pipe_bends() {
    let bend = PartShape::PipeBend {
        outer_diameter: number(0.75),
        inner_diameter: number(0.25),
        span_blocks: 4,
        material: ConstructionMaterial::Aluminium,
        appearance: MaterialAppearance::baked(),
    };
    let mut pose = at_units(4, 8, 12);
    pose.rotation = GridRotation { x: 1, y: 2, z: 3 };
    let mut graph = ConstructionGraph::new();
    spawn(&mut graph, bend, pose);
    let document = save(&graph, "Bent Pipe", &[]);
    assert_eq!(document.version, CREATION_FORMAT_VERSION);
    let loaded = load(document).unwrap();
    assert_eq!(loaded.graph.parts.rows.values[0], PartSpec::bare(bend, pose));
}

#[test]
fn current_version_round_trips_pipe_junctions() {
    let junction = PartShape::PipeJunction {
        outer_diameter: number(0.20),
        inner_diameter: number(0.10),
        arms: 0b01_1001,
        material: ConstructionMaterial::Aluminium,
        appearance: MaterialAppearance::baked(),
    };
    let mut pose = at_units(4, 8, 12);
    pose.rotation = GridRotation { x: 1, y: 2, z: 3 };
    let mut graph = ConstructionGraph::new();
    spawn(&mut graph, junction, pose);
    let loaded = load(save(&graph, "Tee", &[])).unwrap();
    assert_eq!(
        loaded.graph.parts.rows.values[0],
        PartSpec::bare(junction, pose)
    );
}

#[test]
fn odd_sized_cuboid_keeps_its_half_grid_offset() {
    let mut pose = at_halves(1, 3, 1);
    pose.rotation = GridRotation { x: 1, y: 2, z: 3 };
    let mut graph = ConstructionGraph::new();
    spawn_block(&mut graph, [3, 1, 3], pose);
    let restored = load(save(&graph, "Offset", &[])).unwrap();
    assert_eq!(
        restored.graph.parts.rows.values[0].pose,
        graph.parts.rows.values[0].pose
    );
}

#[test]
fn current_document_round_trips_five_centimetre_fine_placement() {
    let fine = GridVec::new(20, 50, -20);
    let mut graph = ConstructionGraph::new();
    spawn_block(
        &mut graph,
        [1, 1, 1],
        BuildPose::from_position_ticks(fine, level()),
    );
    let document = save(&graph, "Fine", &[]);
    assert_eq!(pose_row(&document.parts[0]).translation_ticks, [20, 50, -20]);
    let rebuilt = load(document).unwrap().graph;
    assert_eq!(rebuilt.parts.rows.values[0].pose.translation_ticks, fine);
}

#[test]
fn unsupported_version_is_refused() {
    let mut document = sample_document();
    document.version = CREATION_FORMAT_VERSION + 1;
    assert_eq!(
        load(document).err(),
        Some(CreationError::UnsupportedVersion(
            CREATION_FORMAT_VERSION + 1
        ))
    );
}

#[test]
fn weld_to_a_missing_part_is_refused() {
    let mut document = sample_document();
    document.welds[0].first.owner = FaceOwnerDoc::Part(99);
    assert_eq!(load(document).err(), Some(CreationError::MissingPart(99)));
}

#[test]
fn wire_to_a_missing_bearing_is_refused() {
    let mut document = sample_document();
    document.drive_links[0].bearing = 7;
    assert_eq!(load(document).err(), Some(CreationError::MissingBearing(7)));
}

#[test]
fn out_of_range_cuboid_dimension_is_refused() {
    let mut document = sample_document();
    document.parts[0] = PartDoc::Cuboid {
        dimensions: [0, 1, 1],
        pose: PoseDoc {
            translation_ticks: [0, 0, 0],
            rotation: [0, 0, 0],
        },
        material: ConstructionMaterial::Steel,
        appearance: MaterialAppearance::baked(),
        layers: Vec::new(),
    };
    assert!(matches!(
        load(document),
        Err(CreationError::Dimension(DimensionError::Zero))
    ));
}

#[test]
fn a_shaped_creation_round_trips_its_regions() {
    let mut graph = ConstructionGraph::new();
    let part = spawn_block(&mut graph, [1, 1, 1], at_halves(1, 1, 1));
    let id = claim(&mut graph, unit_region([0, 0, 0]), &[part]);
    graph
        .set_region_vertices(
            id,
            vec![CageVertex {
                index: [1, 1, 1],
                offset: [-3, -4, -5],
            }],
        )
        .unwrap();
    let document = save(&graph, "shaped", &[]);
    assert_eq!(document.regions.len(), 1);
    let restored = load(document).unwrap().graph;
    assert_eq!(
        restored.regions.rows.values[0],
        graph.regions.rows.values[0]
    );
    assert_eq!(
        restored.region_of(keys(&restored)[0]),
        Some(restored.regions.rows.keys[0])
    );
}

#[test]
fn a_fine_placed_shape_region_round_trips_its_exact_origin() {
    let mut graph = ConstructionGraph::new();
    let part = spawn_block(
        &mut graph,
        [1, 1, 1],
        BuildPose::from_position_ticks(GridVec::new(60, 50, 50), level()),
    );
    claim(&mut graph, unit_region([10, 0, 0]), &[part]);
    let document = save(&graph, "fine shaped", &[]);
    assert_eq!(document.regions[0].origin_steps, [10, 0, 0]);
    let restored = load(document).unwrap().graph;
    assert_eq!(
        restored.regions.rows.values[0].origin_steps,
        GridVec::new(10, 0, 0)
    );
}

#[test]
fn a_subdivided_region_round_trips_its_cage_planes() {
    let mut graph = ConstructionGraph::new();
    let first = spawn_block(&mut graph, [1, 1, 1], at_halves(1, 1, 1));
    let second = spawn_block(&mut graph, [1, 1, 1], at_halves(3, 1, 1));
    graph.rigid_links.insert(RigidLinkSpec { first, second });
    let mut region = ShapeRegion::from_origin_steps(
        GridVec::new(0, 0, 0),
        GridVec::new(2, 1, 1),
        ConstructionMaterial::Steel,
    )
    .unwrap();
    region.subdivide(0, 1).unwrap();
    claim(&mut graph, region, &[first, second]);
    let restored = load(save(&graph, "subdivided", &[])).unwrap().graph;
    assert_eq!(restored.regions.rows.values[0].plane_counts(), [3, 2, 2]);
}

#[test]
fn transmissions_round_trip_when_arena_order_precedes_their_parents() {
    let mut graph = ConstructionGraph::new();
    let first_disposable = spawn_block(&mut graph, [1, 1, 1], at_units(20, 1, 0));
    let second_disposable = spawn_block(&mut graph, [1, 1, 1], at_units(24, 1, 0));
    let engine = spawn(
        &mut graph,
        PartShape::Engine {
            kind: EngineKind::Gas,
        },
        BuildPose::origin(),
    );
    graph.parts.remove(first_disposable);
    graph.parts.remove(second_disposable);
    let first = extend(&mut graph, engine, at_units(0, 0, 2));
    extend(&mut graph, first, at_units(0, 0, 4));

    let document = save(&graph, "Forward parents", &[]);
    assert!(matches!(
        document.parts.as_slice(),
        [
            PartDoc::Transmission { parent: 1, .. },
            PartDoc::Transmission { parent: 2, .. },
            PartDoc::Engine { .. }
        ]
    ));

    let restored = load(document).unwrap().graph;
    assert_eq!(restored.parts.len(), 3);
    let parts = keys(&restored);
    let restored_engine = parts
        .iter()
        .copied()
        .find(|part| matches!(restored.part(*part).unwrap().shape, PartShape::Engine { .. }))
        .unwrap();
    let restored_first = parts
        .iter()
        .copied()
        .find(|part| restored.transmission_parents.get(*part) == Some(&restored_engine))
        .unwrap();
    assert!(parts
        .iter()
        .any(|part| restored.transmission_parents.get(*part) == Some(&restored_first)));
}

#[test]
fn transmission_parents_and_gearbox_settings_round_trip() {
    let mut graph = ConstructionGraph::new();
    let controller = spawn(&mut graph, PartShape::Controller, BuildPose::origin());
    let engine = spawn(
        &mut graph,
        PartShape::Engine {
            kind: EngineKind::Gas,
        },
        at_units(2, 0, 0),
    );
    weld(
        &mut graph,
        face(controller, FaceKind::PositiveX),
        face(engine, FaceKind::NegativeX),
    );
    extend(&mut graph, engine, at_units(2, 0, 2));
    let mut down = GearKeyChord::new(GearKey::PageDown);
    down.shift = true;
    let lane = GearLane {
        controller,
        kind: EngineKind::Gas,
    };
    graph.gearboxes.insert(
        lane,
        GearboxConfig::new(
            ShiftMode::Manual,
            vec![number(4.0), number(0.8)],
            2,
            GearKeyChord::new(GearKey::PageUp),
            down,
        )
        .unwrap(),
    );

    let document = save(&graph, "Geared", &[]);
    assert_eq!(document.gearbox_configs.len(), 1);
    assert_eq!(
        document.welds.len(),
        1,
        "the required weld is derived from its parent"
    );
    let restored = load(document).unwrap().graph;
    let parts = keys(&restored);
    let restored_transmission = parts
        .iter()
        .copied()
        .find(|part| matches!(restored.part(*part).unwrap().shape, PartShape::Transmission))
        .unwrap();
    let restored_engine = *restored
        .transmission_parents
        .get(restored_transmission)
        .unwrap();
    assert!(matches!(
        restored.part(restored_engine).unwrap().shape,
        PartShape::Engine { .. }
    ));
    let required = *restored
        .transmission_welds
        .get(restored_transmission)
        .unwrap();
    assert_eq!(
        restored.welds.get(required),
        Some(&WeldSpec {
            first: face(restored_engine, FaceKind::PositiveZ),
            second: face(restored_transmission, FaceKind::NegativeZ),
        })
    );
    let restored_controller = parts
        .iter()
        .copied()
        .find(|part| restored.is_controller(*part))
        .unwrap();
    let config = restored
        .gearboxes
        .get(GearLane {
            controller: restored_controller,
            kind: EngineKind::Gas,
        })
        .unwrap();
    assert_eq!(config.mode(), ShiftMode::Manual);
    assert_eq!(config.ratios(), &[number(4.0), number(0.8)]);
    assert_eq!(config.reverse_gears(), 2);
    assert_eq!(config.gear_up().key, GearKey::PageUp);
    assert!(config.gear_down().shift);
}

#[test]
fn incomplete_matching_stacks_remain_saveable_and_loadable() {
    let mut graph = ConstructionGraph::new();
    let electric = PartShape::Engine {
        kind: EngineKind::Electric,
    };
    let controller = spawn(&mut graph, PartShape::Controller, BuildPose::origin());
    let first = spawn(&mut graph, electric, at_units(2, 0, 0));
    let second = spawn(&mut graph, electric, at_units(4, 0, 0));
    for (left, right) in [(controller, first), (first, second)] {
        weld(
            &mut graph,
            face(left, FaceKind::PositiveX),
            face(right, FaceKind::NegativeX),
        );
    }
    extend(&mut graph, first, at_units(2, 0, 2));
    let restored = load(save(&graph, "Incomplete", &[])).unwrap().graph;
    assert_eq!(restored.parts.len(), 4);
    assert_eq!(restored.transmission_parents.len(), 1);
    assert_eq!(
        save(&restored, "Incomplete", &[]),
        save(&graph, "Incomplete", &[])
    );
}

#[test]
fn shape_feature_order_and_topology_provenance_round_trip() {
    let mut graph = ConstructionGraph::new();
    let part = spawn_block(&mut graph, [2, 2, 2], BuildPose::origin());
    let owner = SolidOwner::Part(part);
    let first = graph.shape_features.insert(ShapeFeature {
        targets: vec![EdgeChainRef {
            owner,
            edge: TopologyKey {
                source: TopologySource::Base,
                local: 0,
            },
        }],
        treatment: EdgeTreatment::Chamfer,
        amount_ticks: 10,
    });
    let second = graph.shape_features.insert(ShapeFeature {
        targets: vec![EdgeChainRef {
            owner,
            edge: TopologyKey {
                source: TopologySource::Feature(first),
                local: 3,
            },
        }],
        treatment: EdgeTreatment::Fillet,
        amount_ticks: 5,
    });
    let mut patched = face(part, FaceKind::PositiveX);
    patched.patch = Some(TopologyKey {
        source: TopologySource::Feature(second),
        local: 7,
    });
    let ring = socket(rotational(), Vec3::ZERO, patched, Vec3::X * 0.25);

    let document = save(&graph, "Features", &[ring]);
    assert_eq!(document.version, CREATION_FORMAT_VERSION);
    assert_eq!(document.shape_features.len(), 2);
    assert!(matches!(
        document.shape_features[1].targets[0].edge.source,
        TopologySourceDoc::Feature(0)
    ));
    let loaded = load(document).unwrap();
    assert_eq!(
        loaded.sockets[0].source.patch.map(|key| key.local),
        Some(7)
    );
    assert_eq!(loaded.graph.shape_features.len(), 2);
    assert_eq!(
        loaded.graph.shape_features.rows.values[1].targets[0]
            .edge
            .source,
        TopologySource::Feature(loaded.graph.shape_features.rows.keys[0])
    );
}

#[test]
fn material_layers_survive_a_serialized_round_trip() {
    let rubber = |face, thickness| MaterialLayer {
        face,
        thickness: number(thickness),
        material: ConstructionMaterial::Rubber,
        appearance: MaterialAppearance::baked(),
    };
    let pipe = PartSpec {
        shape: PartShape::Cylinder {
            outer_diameter: number(1.0),
            inner_diameter: number(0.5),
            length_units: 2,
            sweep_degrees: 360,
            material: ConstructionMaterial::Steel,
            appearance: MaterialAppearance::baked(),
        },
        pose: BuildPose::from_position_ticks(GridVec::new(0, 400, 0), level()),
        layers: vec![
            rubber(LayerFace::OuterWall, 0.25),
            rubber(LayerFace::Bore, 0.1),
            rubber(LayerFace::Face(FaceKind::PositiveY), 0.01),
        ],
    };
    let slab = PartSpec {
        shape: block([2, 2, 2], ConstructionMaterial::Steel),
        pose: at_units(8, 1, 0),
        layers: vec![rubber(LayerFace::Face(FaceKind::NegativeX), 0.05)],
    };
    let mut graph = ConstructionGraph::new();
    graph.parts.insert(pipe.duplicate());
    graph.parts.insert(slab.duplicate());
    let restored = load(save(&graph, "Layers", &[])).unwrap().graph;
    let held = &restored.parts.rows.values;
    assert_eq!(held[0].layers.len(), 3);
    assert_eq!(held[0].pose, pipe.pose);
    assert_eq!(held[0], pipe);
    assert_eq!(held[1], slab);
}

#[test]
fn arbitrary_construction_frame_round_trip_preserves_local_grid_and_world_pose() {
    let mut graph = ConstructionGraph::new();
    let part = spawn_block(&mut graph, [2, 2, 2], at_units(4, 8, -2));
    let local = graph.part(part).unwrap().pose;
    let grid = frame(Vec3::new(3.0, 5.0, -1.0), Quat::from_rotation_y(0.73));
    reframe(&mut graph, &[part], grid);
    let original = save(&graph, "Reframed", &[]);
    let restored = load(save(&graph, "Reframed", &[])).unwrap().graph;
    let part = keys(&restored)[0];
    assert_eq!(restored.part(part).unwrap().pose, local);
    assert!(part_position(&restored, part)
        .abs_diff_eq(point(grid, Vec3::new(1.0, 2.0, -0.5)), 1.0e-5));
    assert_eq!(save(&restored, "Reframed", &[]), original);
}

/// Turns and moves a document whose parts stand upright.
fn move_document(document: &mut CreationDocument, yaw: u8, halves: [i32; 3]) {
    let step = Vec3::new(halves[0] as f32, halves[1] as f32, halves[2] as f32) * 0.125;
    let cardinal = Quat::from_rotation_y(f32::from(yaw % 4) * std::f32::consts::FRAC_PI_2);
    let motion = CardinalMotion {
        rotations: document
            .parts
            .iter()
            .map(|part| {
                let turns = pose_row(part).rotation;
                assert_eq!((turns[0], turns[2]), (0, 0));
                GridRotation {
                    x: 0,
                    y: (turns[1] + yaw) % 4,
                    z: 0,
                }
            })
            .collect(),
        frames: document
            .frames
            .iter()
            .map(|grid| {
                let turn = cardinal * quaternion(grid.rotation) * cardinal.conjugate();
                ConstructionFrameDoc {
                    translation: triple(
                        cardinal * vector(grid.translation) + step - turn * step,
                    ),
                    rotation: rotation(turn),
                }
            })
            .collect(),
        bearing_anchors: document
            .bearings
            .iter()
            .map(|joint| triple(cardinal * vector(joint.anchor) + step))
            .collect(),
        socket_anchors: document
            .sockets
            .iter()
            .map(|ring| triple(cardinal * vector(ring.anchor) + step))
            .collect(),
    };
    document.transform_cardinal(yaw, GridVec::new(halves[0], halves[1], halves[2]), &motion);
}

#[test]
fn cardinal_transfer_applies_once_to_framed_world_geometry() {
    let mut graph = ConstructionGraph::new();
    let part = spawn_block(&mut graph, [2, 2, 2], at_units(4, 8, -2));
    reframe(
        &mut graph,
        &[part],
        frame(Vec3::new(3.0, 5.0, -1.0), Quat::from_rotation_x(0.43)),
    );
    let position = part_position(&graph, part);
    let turn = part_rotation(&graph, part);
    let cardinal = Quat::from_rotation_y(std::f32::consts::FRAC_PI_2);
    let mut document = save(&graph, "Transfer", &[]);
    move_document(&mut document, 1, [8, 16, -24]);
    let restored = load(document).unwrap().graph;
    let part = keys(&restored)[0];
    assert!(part_position(&restored, part)
        .abs_diff_eq(cardinal * position + Vec3::new(1.0, 2.0, -3.0), 1.0e-5));
    assert!(part_rotation(&restored, part).abs_diff_eq(cardinal * turn, 1.0e-5));
}

#[test]
fn joints_sockets_and_regions_turn_with_their_creation() {
    let (mut graph, sockets) = sample();
    let mut region = unit_region([0, 0, 0]);
    region
        .set_vertices(vec![CageVertex {
            index: [1, 0, 0],
            offset: [-3, 4, 5],
        }])
        .unwrap();
    claim(&mut graph, region, &[]);
    let mut document = save(&graph, "Moved", &sockets);
    let before = document.bearings[0];
    move_document(&mut document, 1, [8, 0, 4]);
    assert!(vector(document.sockets[0].anchor).abs_diff_eq(Vec3::new(1.0, 1.0, 0.5), 1.0e-6));
    assert!(vector(document.bearings[0].anchor).abs_diff_eq(Vec3::new(1.0, 0.5, 0.5), 1.0e-6));
    assert_eq!(document.bearings[0].axis.y, before.axis.y);
    assert_eq!(pose_row(&document.parts[3]).translation_ticks, [400, 400, 1000]);
    let turned = &document.regions[0];
    assert_eq!(turned.origin_steps, [400, 0, 100]);
    assert_eq!(turned.size_cells, [1, 1, 1]);
    assert_eq!(
        turned.vertices,
        vec![CageVertex {
            index: [0, 0, 0],
            offset: [5, 4, 3],
        }]
    );
    assert!(load(document).is_ok());
}

#[test]
fn four_quarter_turns_bring_a_region_back() {
    let mut graph = ConstructionGraph::new();
    let mut region = ShapeRegion::from_origin_steps(
        GridVec::new(10, 20, 30),
        GridVec::new(3, 2, 1),
        ConstructionMaterial::Wood,
    )
    .unwrap();
    region.subdivide(0, 1).unwrap();
    claim(&mut graph, region, &[]);
    let original = save(&graph, "Turned", &[]);
    let mut document = save(&graph, "Turned", &[]);
    for _ in 0..4 {
        move_document(&mut document, 1, [0, 0, 0]);
    }
    assert_eq!(document, original);
}

#[test]
fn append_remaps_frame_membership_without_moving_either_creation() {
    let mut graph = ConstructionGraph::new();
    let part = spawn_block(&mut graph, [1, 1, 1], BuildPose::origin());
    let mut first = save(&graph, "Combined", &[]);
    reframe(
        &mut graph,
        &[part],
        frame(Vec3::X * 5.0, Quat::from_rotation_y(0.61)),
    );
    first.append(save(&graph, "Second", &[])).unwrap();
    let restored = load(first).unwrap().graph;
    let positions = keys(&restored)
        .into_iter()
        .map(|part| part_position(&restored, part))
        .collect::<Vec<_>>();
    assert_eq!(positions, vec![Vec3::ZERO, Vec3::X * 5.0]);
}

#[test]
fn an_appended_creation_is_renamed_behind_the_rows_already_there() {
    let (graph, sockets) = sample();
    let mut both = save(&graph, "Both", &sockets);
    both.append(save(&graph, "Other", &sockets)).unwrap();
    assert_eq!(both.name, "Both");
    assert_eq!(both.parts.len(), 8);
    assert_eq!(both.welds[2].first.owner, FaceOwnerDoc::Part(4));
    assert_eq!(both.welds[2].second.owner, FaceOwnerDoc::Ground);
    assert_eq!(both.rigid_links[1].second, 7);
    assert_eq!(both.drive_links[1].controller, 6);
    assert_eq!(both.drive_links[1].bearing, 1);
    assert_eq!(both.sockets[1].source.owner, FaceOwnerDoc::Part(5));
    let restored = load(both).unwrap();
    assert_eq!(restored.graph.parts.len(), 8);
    assert_eq!(restored.graph.drive_links.len(), 2);
    assert_eq!(restored.sockets.len(), 2);
}

#[test]
fn appending_rows_beyond_the_index_space_changes_nothing() {
    let mut document = sample_document();
    let mut other = sample_document();
    other.rigid_links[0].second = u32::MAX;
    assert_eq!(document.append(other), Err(CreationError::TooManyRows));
    assert_eq!(document, sample_document());
}

#[test]
fn appended_overlapping_local_regions_round_trip_in_separate_frames() {
    let build = || {
        let mut graph = ConstructionGraph::new();
        let part = spawn_block(&mut graph, [1, 1, 1], at_halves(1, 1, 1));
        claim(&mut graph, unit_region([0, 0, 0]), &[part]);
        let mut document = save(&graph, "Two grids", &[]);
        reframe(&mut graph, &[part], frame(Vec3::X * 5.0, Quat::IDENTITY));
        document
            .append(save(&graph, "Translated grid", &[]))
            .unwrap();
        document
    };
    let restored = load(build()).unwrap().graph;
    let parts = keys(&restored);
    assert_eq!(restored.regions.len(), 2);
    assert_ne!(restored.region_of(parts[0]), restored.region_of(parts[1]));
    for &part in &parts {
        assert_eq!(
            restored.region_frame_id(restored.region_of(part).unwrap()),
            restored.part_frame_id(part)
        );
    }
    assert!(part_position(&restored, parts[0]).abs_diff_eq(Vec3::splat(0.125), 1.0e-5));
    assert!(
        part_position(&restored, parts[1]).abs_diff_eq(Vec3::new(5.125, 0.125, 0.125), 1.0e-5)
    );
    assert_eq!(restored.edit_frame_id(), ConstructionFrameId(0));
    assert_eq!(
        restored
            .plan_compounds(&OrderedSet::new())
            .unwrap()
            .compounds
            .len(),
        2
    );

    let mut missing = build();
    missing.region_frames.pop();
    assert!(matches!(
        load(missing),
        Err(CreationError::RegionFrameMembershipCount)
    ));
    let mut renamed = build();
    renamed.region_frames[1] = 99;
    assert!(matches!(
        load(renamed),
        Err(CreationError::MissingFrame(99))
    ));
}

#[test]
fn framed_transmissions_replay_locally_and_reject_split_membership() {
    let mut graph = ConstructionGraph::new();
    let engine = spawn(
        &mut graph,
        PartShape::Engine {
            kind: EngineKind::Gas,
        },
        BuildPose::origin(),
    );
    let child = extend(&mut graph, engine, at_units(0, 0, 2));
    reframe(
        &mut graph,
        &[engine, child],
        frame(Vec3::new(3.0, 4.0, 5.0), Quat::from_rotation_z(0.37)),
    );
    let restored = load(save(&graph, "Transmission", &[])).unwrap().graph;
    let restored_child = keys(&restored)
        .into_iter()
        .find(|part| restored.transmission_parents.contains_key(*part))
        .unwrap();
    assert!(part_position(&restored, restored_child)
        .abs_diff_eq(part_position(&graph, child), 1.0e-5));
    let mut invalid = save(&graph, "Transmission", &[]);
    invalid.part_frames[1] = 0;
    assert!(matches!(
        load(invalid),
        Err(CreationError::TransmissionFrame(1))
    ));
}

#[test]
fn invalid_frames_and_dense_membership_are_rejected() {
    let mut graph = ConstructionGraph::new();
    spawn_block(&mut graph, [1, 1, 1], BuildPose::origin());
    let mut invalid = save(&graph, "Invalid", &[]);
    invalid.part_frames.clear();
    assert!(matches!(
        load(invalid),
        Err(CreationError::FrameMembershipCount)
    ));
    let mut invalid = save(&graph, "Invalid", &[]);
    invalid.part_frames[0] = 9;
    assert!(matches!(load(invalid), Err(CreationError::MissingFrame(9))));
    for grid in [
        ConstructionFrameDoc {
            translation: triple(Vec3::new(f32::NAN, 0.0, 0.0)),
            rotation: rotation(Quat::IDENTITY),
        },
        ConstructionFrameDoc {
            translation: triple(Vec3::ZERO),
            rotation: rotation(Quat::from_xyzw(0.0, 0.0, 0.0, 0.0)),
        },
    ] {
        let mut invalid = save(&graph, "Invalid", &[]);
        invalid.frames[0] = grid;
        assert!(matches!(load(invalid), Err(CreationError::Frame(_))));
    }
}

#[test]
fn tool_view_snapshot_restores_canonical_parts_and_socket_frames() {
    let mut graph = ConstructionGraph::new();
    let part = spawn_block(&mut graph, [4, 4, 4], BuildPose::origin());
    spawn_block(&mut graph, [4, 4, 4], at_units(16, 0, 0));
    let grid = frame(
        Vec3::new(2.0, 3.0, -1.0),
        Quat::from_rotation_z(0.4) * Quat::from_rotation_y(-0.7),
    );
    reframe(&mut graph, &[part], grid);
    let positions = keys(&graph)
        .into_iter()
        .map(|part| (part_position(&graph, part), part_rotation(&graph, part)))
        .collect::<Vec<_>>();
    let id = graph.part_frame_id(part).unwrap();
    let back = inverse(graph.part_frame(part).unwrap());
    let space = MovedSpace {
        frames: composed(&graph, back),
        bearings: motions(&graph, back),
        view_to_build: compose(graph.view_to_build(), inverse(back)),
    };
    graph.in_edit_frame(id, &space).unwrap();
    let sockets = [rotational(), rail(Vec3::Y)].map(|kind| {
        socket(
            kind,
            Vec3::X,
            face(part, FaceKind::PositiveY),
            Vec3::Y * 0.5,
        )
    });
    let restored = load(save(&graph, "View snapshot", &sockets)).unwrap();
    for (part, (position, turn)) in keys(&restored.graph).into_iter().zip(positions) {
        assert!(part_position(&restored.graph, part).abs_diff_eq(position, 1.0e-5));
        assert!(part_rotation(&restored.graph, part).abs_diff_eq(turn, 1.0e-5));
    }
    assert_eq!(
        restored.graph.view_to_build(),
        ConstructionFrame::identity()
    );
    for ring in restored.sockets {
        assert!(vector(ring.anchor).abs_diff_eq(point(grid, Vec3::Y * 0.5), 1.0e-5));
        assert!(vector(ring.axis).abs_diff_eq(direction(grid, Vec3::X), 1.0e-5));
        if let JointHardware::Linear { mount_normal, .. } = ring.kind.hardware {
            assert!(vector(mount_normal).abs_diff_eq(direction(grid, Vec3::Y), 1.0e-5));
        }
    }
}

#[test]
fn canonical_socket_snapshot_preserves_exact_coordinate_bits() {
    let mut graph = ConstructionGraph::new();
    let part = spawn_block(&mut graph, [4, 4, 4], BuildPose::origin());
    let normal = Vec3::new(-0.0, 1.0, -0.0);
    let ring = socket(
        rail(normal),
        Vec3::new(1.0, -0.0, -0.0),
        face(part, FaceKind::PositiveY),
        Vec3::new(-0.0, 0.1, 0.125),
    );
    let document = save(&graph, "Canonical", &[ring]);
    let saved = document.sockets[0];
    assert_eq!(saved.anchor, ring.anchor);
    assert_eq!(saved.axis, ring.axis);
    let JointHardware::Linear { mount_normal, .. } = saved.kind.hardware else {
        unreachable!()
    };
    assert_eq!(mount_normal, triple(normal));
}

#[test]
fn references_to_missing_rows_are_refused() {
    let mut link = sample_document();
    link.rigid_links[0].first = 40;
    assert_eq!(load(link).err(), Some(CreationError::MissingPart(40)));

    let mut ring = {
        let (graph, sockets) = sample();
        save(&graph, "Test Rig", &sockets)
    };
    ring.sockets[0].source.owner = FaceOwnerDoc::Part(41);
    assert_eq!(load(ring).err(), Some(CreationError::MissingPart(41)));

    let mut patched = sample_document();
    patched.bearings[0].source.patch = Some(mechanic_core::creation::doc::TopologyKeyDoc {
        source: TopologySourceDoc::Feature(3),
        local: 0,
    });
    assert_eq!(
        load(patched).err(),
        Some(CreationError::MissingShapeFeature(3))
    );

    let mut featured = sample_document();
    featured
        .shape_features
        .push(mechanic_core::creation::doc::ShapeFeatureDoc {
            targets: vec![EdgeChainRefDoc {
                owner: SolidOwnerDoc::Region(5),
                edge: mechanic_core::creation::doc::TopologyKeyDoc {
                    source: TopologySourceDoc::Base,
                    local: 0,
                },
            }],
            treatment: EdgeTreatment::Chamfer,
            amount_ticks: 10,
        });
    assert_eq!(load(featured).err(), Some(CreationError::MissingRegion(5)));
}

#[test]
fn a_transmission_behind_nothing_is_refused() {
    let mut graph = ConstructionGraph::new();
    let engine = spawn(
        &mut graph,
        PartShape::Engine {
            kind: EngineKind::Gas,
        },
        BuildPose::origin(),
    );
    extend(&mut graph, engine, at_units(0, 0, 2));
    let mut document = save(&graph, "Loose", &[]);
    let pose = pose_row(&document.parts[1]);
    document.parts[1] = PartDoc::Transmission { parent: 8, pose };
    assert_eq!(load(document).err(), Some(CreationError::MissingPart(8)));

    let mut looped = save(&graph, "Looped", &[]);
    looped.parts[1] = PartDoc::Transmission { parent: 1, pose };
    assert_eq!(load(looped).err(), Some(CreationError::MissingPart(1)));
}

#[test]
fn malformed_controls_are_refused() {
    let mut keyed = sample_document();
    keyed.drive_links[0].program.states[1]
        .trigger
        .as_mut()
        .unwrap()
        .key = '?';
    assert_eq!(load(keyed).err(), Some(CreationError::InvalidDriveKey('?')));

    let mut empty = sample_document();
    empty.drive_links[0].program.states.clear();
    assert_eq!(
        load(empty).err(),
        Some(CreationError::DriveProgram(DriveProgramError::EmptyProgram))
    );

    let mut slow = sample_document();
    slow.drive_links[0].limits.max_speed_rad_s = number(0.0);
    assert_eq!(
        load(slow).err(),
        Some(CreationError::DriveLimits(
            DriveLimitsError::SpeedOutOfRange
        ))
    );

    let mut geared = sample_document();
    geared.gearbox_configs.push(GearboxConfigDoc {
        controller: 2,
        kind: EngineKind::Electric,
        mode: ShiftMode::Manual,
        ratios: vec![number(2.0), number(2.0)],
        reverse_gears: 0,
        gear_up: GearKeyChord::new(GearKey::PageUp),
        gear_down: GearKeyChord::new(GearKey::PageDown),
    });
    assert!(matches!(
        load(geared).err(),
        Some(CreationError::Graph(GraphError::Gearbox(
            GearboxError::RatiosNotDescending
        )))
    ));
}

#[test]
fn malformed_regions_are_refused() {
    let build = || {
        let mut graph = ConstructionGraph::new();
        let part = spawn_block(&mut graph, [1, 1, 1], at_halves(1, 1, 1));
        claim(&mut graph, unit_region([0, 0, 0]), &[part]);
        save(&graph, "Shaped", &[])
    };
    let mut flat = build();
    flat.regions[0].size_cells = [0, 1, 1];
    assert_eq!(
        load(flat).err(),
        Some(CreationError::Graph(GraphError::Region(RegionError::EmptyExtent)))
    );
    let mut planed = build();
    planed.regions[0].divisions_x = vec![1];
    assert_eq!(
        load(planed).err(),
        Some(CreationError::Graph(GraphError::Region(RegionError::InvalidPlane)))
    );
    let mut outside = build();
    outside.regions[0].vertices = vec![CageVertex {
        index: [1, 1, 1],
        offset: [1, 0, 0],
    }];
    assert_eq!(
        load(outside).err(),
        Some(CreationError::Graph(GraphError::Region(RegionError::VertexOutsideRegion)))
    );
}

/// A dial bound to a wire and a lane, and a button bound to a key.
fn panel() -> (ConstructionGraph, PartId, PartId, BearingId) {
    let (mut graph, _) = sample();
    let dial = spawn(
        &mut graph,
        PartShape::Dial {
            size: InputSize::Panel,
        },
        at_units(0, 8, 0),
    );
    let button = spawn(
        &mut graph,
        PartShape::Button {
            size: InputSize::Panel,
        },
        at_units(1, 8, 0),
    );
    let controller = keys(&graph)[2];
    let link = graph.drive_links.rows.keys[0];
    let range = AnalogRange {
        low: number(0.0),
        high: number(2.0),
        inverted: true,
    };
    graph.inputs.insert(
        dial,
        InputConfiguration {
            name: String::from("Throttle"),
            controller: Some(controller),
            button_mode: ButtonMode::Momentary,
            key: None,
            analog: vec![
                AnalogMapping {
                    target: NumericParameter::Drive {
                        link,
                        parameter: DriveParameter { field: 1 },
                    },
                    range,
                },
                AnalogMapping {
                    target: NumericParameter::Gear {
                        controller,
                        kind: EngineKind::Gas,
                        parameter: GearParameter { field: 0 },
                    },
                    range,
                },
            ],
        },
    );
    graph.inputs.insert(
        button,
        InputConfiguration {
            name: String::from("Horn"),
            controller: Some(controller),
            button_mode: ButtonMode::Toggle,
            key: DriveKey::new('h'),
            analog: Vec::new(),
        },
    );
    let bearing = graph.bearings.rows.keys[0];
    (graph, dial, button, bearing)
}

#[test]
fn input_settings_come_back_over_the_rebuilt_rows() {
    let (graph, dial, button, _) = panel();
    let docs = graph.input_docs();
    assert_eq!(docs.len(), 2);
    assert_eq!(docs[0].input, 4);
    assert_eq!(docs[0].controller, Some(2));
    assert_eq!(
        docs[0].analog[0].target,
        NumericParameterDoc::Drive {
            link: 0,
            parameter: DriveParameter { field: 1 }
        }
    );
    assert_eq!(docs[1].key, Some('H'));
    let mut restored = load(save(&graph, "Panel", &[])).unwrap().graph;
    let parts = keys(&restored);
    restored.apply_input_docs(&docs, &parts).unwrap();
    assert_eq!(restored.inputs.get(dial), graph.inputs.get(dial));
    assert_eq!(restored.inputs.get(button), graph.inputs.get(button));
}

#[test]
fn input_settings_move_behind_the_rows_of_another_creation() {
    let (graph, ..) = panel();
    let moved = offset_input_docs(graph.input_docs(), 10, 3).unwrap();
    assert_eq!(moved[0].input, 14);
    assert_eq!(moved[0].controller, Some(12));
    assert_eq!(
        moved[0].analog[0].target,
        NumericParameterDoc::Drive {
            link: 3,
            parameter: DriveParameter { field: 1 }
        }
    );
    assert_eq!(
        moved[0].analog[1].target,
        NumericParameterDoc::Gear {
            controller: 12,
            kind: EngineKind::Gas,
            parameter: GearParameter { field: 0 }
        }
    );
    assert_eq!(
        offset_input_docs(graph.input_docs(), u32::MAX, 0),
        Err(CreationError::TooManyRows)
    );
}

#[test]
fn broken_input_settings_are_refused() {
    let (graph, ..) = panel();
    let refused = |edit: fn(&mut Vec<InputConfigurationDoc>)| {
        let mut docs = graph.input_docs();
        edit(&mut docs);
        let mut restored = load(save(&graph, "Panel", &[])).unwrap().graph;
        let parts = keys(&restored);
        restored.apply_input_docs(&docs, &parts).err()
    };
    assert_eq!(
        refused(|docs| docs[1].input = docs[0].input),
        Some(CreationError::Graph(GraphError::InputBinding(
            InputBindingError::InvalidTarget
        )))
    );
    assert_eq!(
        refused(|docs| docs[0].input = 77),
        Some(CreationError::MissingPart(77))
    );
    assert_eq!(
        refused(|docs| docs[1].key = Some('%')),
        Some(CreationError::InvalidDriveKey('%'))
    );
    assert_eq!(
        refused(|docs| docs[0].analog[0].target = NumericParameterDoc::Drive {
            link: 6,
            parameter: DriveParameter { field: 1 }
        }),
        Some(CreationError::MissingDriveLink(6))
    );
}

fn suspension() -> JointKind {
    JointKind {
        hardware: JointHardware::Suspension,
        owns_head: false,
        translational: true,
        lower: number(-0.1),
        upper: number(0.1),
    }
}

fn suspension_document() -> CreationDocument {
    let mut graph = ConstructionGraph::new();
    let source = spawn_block(&mut graph, [4; 3], at_units(0, 2, 0));
    let target = spawn_block(&mut graph, [4; 3], at_units(6, 2, 0));
    graph.bearings.insert(BearingSpec {
        source: face(source, FaceKind::PositiveX),
        target: Some(face(target, FaceKind::NegativeX)),
        shared_anchor: triple(Vec3::new(0.5, 0.5, 0.0)),
        axis: triple(Vec3::X),
        kind: suspension(),
        outer_diameter: number(0.25),
        inner_diameter: number(0.1),
    });
    let ring = socket(
        suspension(),
        Vec3::Y,
        face(source, FaceKind::PositiveY),
        Vec3::Y,
    );
    save(&graph, "Suspension", &[ring])
}

#[test]
fn suspension_socket_loading_rejects_invalid_axis_anchor_and_support() {
    let refused = |change: &dyn Fn(&mut BearingSocketDoc)| {
        let mut document = suspension_document();
        change(&mut document.sockets[0]);
        load(document).err()
    };
    assert_eq!(refused(&|_| {}), None);
    for axis in [
        [0.0; 3],
        [0.0, 2.0, 0.0],
        [1.0, 0.0, 0.0],
        [f32::NAN; 3],
        [f32::INFINITY; 3],
    ] {
        assert_eq!(
            refused(&|ring| ring.axis = triple(Vec3::from_array(axis))),
            Some(CreationError::Graph(GraphError::InvalidBearingAxis))
        );
    }
    for anchor in [[0.0, 1.1, 0.0], [9.0, 1.0, 0.0], [f32::NAN; 3]] {
        assert_eq!(
            refused(&|ring| ring.anchor = triple(Vec3::from_array(anchor))),
            Some(CreationError::Graph(GraphError::BearingAnchorOutsideFaces))
        );
    }
    assert_eq!(
        refused(&|ring| ring.source.owner = FaceOwnerDoc::Ground),
        Some(CreationError::Graph(GraphError::BearingOnGround))
    );
}

#[test]
fn joints_and_rings_are_refused_in_the_order_of_their_checks() {
    let loaded = |document: CreationDocument, checks: LoadChecks| {
        let owners = document.region_owners();
        document.into_graph(&checks, &owners).err()
    };
    let nothing_fits = JointCheck {
        dimensions: Err(BearingDimensionError),
        axis_fits: false,
        anchor_fits: false,
    };

    // A rail without a rotation comes before a missing part, a missing part
    // before dimensions, dimensions before the ground under the ring.
    let mut document = suspension_document();
    document.sockets[0].kind = rail(Vec3::Y);
    document.sockets[0].source.owner = FaceOwnerDoc::Part(40);
    let mut checks = measured(&document);
    checks.rings[0] = RingCheck {
        rail: Err(LinearBearingError),
        joint: nothing_fits,
    };
    assert_eq!(
        loaded(document, checks),
        Some(CreationError::LinearBearing(LinearBearingError))
    );
    let mut document = suspension_document();
    document.sockets[0].source.owner = FaceOwnerDoc::Part(40);
    let mut checks = measured(&document);
    checks.rings[0] = RingCheck {
        rail: Err(LinearBearingError),
        joint: nothing_fits,
    };
    assert_eq!(
        loaded(document, checks),
        Some(CreationError::MissingPart(40))
    );
    let mut document = suspension_document();
    document.sockets[0].source.owner = FaceOwnerDoc::Ground;
    let mut checks = measured(&document);
    checks.rings[0].joint = nothing_fits;
    assert_eq!(
        loaded(document, checks),
        Some(CreationError::BearingDimension(BearingDimensionError))
    );

    // Every joint is read before the first is mounted.
    let mut document = suspension_document();
    document.bearings[0].source.owner = FaceOwnerDoc::Ground;
    let checks = measured(&document);
    assert_eq!(
        loaded(document, checks),
        Some(CreationError::Graph(GraphError::BearingOnGround))
    );
    let document = suspension_document();
    let mut checks = measured(&document);
    checks.joints[0] = nothing_fits;
    assert_eq!(
        loaded(document, checks),
        Some(CreationError::BearingDimension(BearingDimensionError))
    );
    let document = suspension_document();
    let mut checks = measured(&document);
    checks.joints[0].axis_fits = false;
    checks.joints[0].anchor_fits = false;
    assert_eq!(
        loaded(document, checks),
        Some(CreationError::Graph(GraphError::InvalidBearingAxis))
    );
    let document = suspension_document();
    let mut checks = measured(&document);
    checks.joints[0].anchor_fits = false;
    assert_eq!(
        loaded(document, checks),
        Some(CreationError::Graph(GraphError::BearingAnchorOutsideFaces))
    );
}

#[test]
fn rows_with_refused_dimensions_or_layers_are_refused() {
    for (error, expected) in [
        (
            PartError::CylinderDimension(CylinderDimensionError),
            CreationError::CylinderDimension(CylinderDimensionError),
        ),
        (PartError::Layer(LayerError), CreationError::Layer(LayerError)),
        (
            PartError::PipeBendDimension(PipeBendDimensionError),
            CreationError::PipeBendDimension(PipeBendDimensionError),
        ),
        (
            PartError::PipeJunction(PipeJunctionError),
            CreationError::PipeJunction(PipeJunctionError),
        ),
    ] {
        let document = suspension_document();
        let mut checks = measured(&document);
        checks.parts[1] = Err(error);
        let owners = document.region_owners();
        assert_eq!(
            document.into_graph(&checks, &owners).err(),
            Some(expected)
        );
    }

    // A side without length is found before what else measuring gave, and a
    // part of a fixed size has nothing to measure.
    let mut document = suspension_document();
    if let PartDoc::Cuboid { dimensions, .. } = &mut document.parts[0] {
        dimensions[1] = 0;
    }
    let mut checks = measured(&document);
    checks.parts[0] = Err(PartError::Layer(LayerError));
    let held = document.region_owners();
    assert_eq!(
        document.into_graph(&checks, &held).err(),
        Some(CreationError::Dimension(DimensionError::Zero))
    );
    let mut graph = ConstructionGraph::new();
    spawn(&mut graph, PartShape::Servo, BuildPose::origin());
    let document = save(&graph, "Servo", &[]);
    let mut checks = measured(&document);
    checks.parts[0] = Err(PartError::Layer(LayerError));
    let held = document.region_owners();
    assert!(document.into_graph(&checks, &held).is_ok());
}

#[test]
fn nested_cylinder_features_round_trip_and_compile_under_current_format() {
    let mut graph = ConstructionGraph::new();
    let part = spawn(
        &mut graph,
        PartShape::Cylinder {
            outer_diameter: number(0.5),
            inner_diameter: number(0.0),
            length_units: 2,
            sweep_degrees: 360,
            material: ConstructionMaterial::Steel,
            appearance: MaterialAppearance::baked(),
        },
        BuildPose::origin(),
    );
    let owner = SolidOwner::Part(part);
    let chamfer = graph.shape_features.insert(ShapeFeature {
        targets: vec![EdgeChainRef {
            owner,
            edge: TopologyKey {
                source: TopologySource::Base,
                local: 0,
            },
        }],
        treatment: EdgeTreatment::Chamfer,
        amount_ticks: 20,
    });
    graph.shape_features.insert(ShapeFeature {
        targets: vec![EdgeChainRef {
            owner,
            edge: TopologyKey {
                source: TopologySource::Feature(chamfer),
                local: 0,
            },
        }],
        treatment: EdgeTreatment::Fillet,
        amount_ticks: 20,
    });

    let document = save(&graph, "Nested cylinder", &[]);
    assert_eq!(document.version, CREATION_FORMAT_VERSION);
    let restored = load(document).unwrap().graph;
    let [again] = keys(&restored)[..] else {
        panic!("one part comes back");
    };
    assert_eq!(restored.part(again), graph.part(part));
    let features = &restored.shape_features.rows;
    assert_eq!(features.values.len(), 2);
    assert_eq!(
        features.values[0].targets,
        vec![EdgeChainRef {
            owner: SolidOwner::Part(again),
            edge: TopologyKey {
                source: TopologySource::Base,
                local: 0,
            },
        }]
    );
    assert_eq!(features.values[0].treatment, EdgeTreatment::Chamfer);
    assert_eq!(features.values[0].amount_ticks, 20);
    assert_eq!(
        features.values[1].targets,
        vec![EdgeChainRef {
            owner: SolidOwner::Part(again),
            edge: TopologyKey {
                source: TopologySource::Feature(features.keys[0]),
                local: 0,
            },
        }]
    );
    assert_eq!(features.values[1].treatment, EdgeTreatment::Fillet);
    assert_eq!(features.values[1].amount_ticks, 20);
}

#[test]
fn rows_that_come_back_in_another_order_are_written_in_that_order() {
    let mut graph = ConstructionGraph::new();
    let engine = spawn(
        &mut graph,
        PartShape::Engine {
            kind: EngineKind::Gas,
        },
        BuildPose::origin(),
    );
    extend(&mut graph, engine, at_units(0, 0, 4));
    spawn_block(&mut graph, [1; 3], at_units(8, 0, 0));
    let document = save(&graph, "Line", &[]);
    assert!(matches!(
        document.parts[1],
        PartDoc::Transmission { parent: 0, .. }
    ));
    let restored = load(document).unwrap();
    let again = save(&restored.graph, "Line", &[]);
    assert!(matches!(again.parts[1], PartDoc::Cuboid { .. }));
    assert!(matches!(
        again.parts[2],
        PartDoc::Transmission { parent: 0, .. }
    ));
    let settled = load(save(&restored.graph, "Line", &[])).unwrap();
    assert_eq!(save(&settled.graph, "Line", &[]), again);
}

#[test]
fn the_first_region_on_a_parts_grid_that_holds_its_centre_owns_it() {
    let mut graph = ConstructionGraph::new();
    for at in [[50, 50, 50], [100, 50, 50], [101, 50, 50], [250, 50, 50]] {
        let pose = BuildPose::from_position_ticks(
            GridVec::new(at[0], at[1], at[2]),
            GridRotation { x: 0, y: 0, z: 0 },
        );
        spawn_block(&mut graph, [1, 1, 1], pose);
    }
    claim(&mut graph, unit_region([0, 0, 0]), &[]);
    claim(&mut graph, unit_region([0, 0, 0]), &[]);
    claim(&mut graph, unit_region([100, 0, 0]), &[]);
    let mut document = save(&graph, "Owned", &[]);
    // A centre on the side of a box lies in neither of the boxes beside it.
    assert_eq!(document.region_owners(), [Some(0), None, Some(2), None]);
    document.region_frames[0] = 1;
    assert_eq!(document.region_owners(), [Some(1), None, Some(2), None]);
    document.part_frames[0] = 1;
    assert_eq!(document.region_owners(), [Some(0), None, Some(2), None]);
    document.region_frames.clear();
    assert_eq!(document.region_owners(), [None; 4]);
}

#[test]
fn input_settings_before_a_refused_record_are_kept() {
    let (graph, dial, button, _) = panel();
    let mut docs = graph.input_docs();
    docs[1].controller = Some(77);
    let mut restored = load(save(&graph, "Panel", &[])).unwrap().graph;
    let parts = keys(&restored);
    assert_eq!(
        restored.apply_input_docs(&docs, &parts),
        Err(CreationError::MissingPart(77))
    );
    assert_eq!(restored.inputs.get(dial), graph.inputs.get(dial));
    assert_eq!(restored.inputs.get(button), None);
}

#[test]
fn a_saved_construction_fits_the_handles_of_a_loaded_one() {
    let (graph, sockets) = sample();
    assert!(save(&graph, "Fits", &sockets).is_indexable());
}
