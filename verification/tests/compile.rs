//! Compiling constructions: compounds, joints, forests and drives.

use mechanic_core::appearance::MaterialAppearance;
use mechanic_core::compile::assembly::{CompileMeasures, CompiledCreation};
use mechanic_core::compile::colliders::{
    cylinder_collider_count, PartRows, RegionRows, SpiralRows, CYLINDER_COLLIDER_COUNT,
    MAX_COMPILED_COLLIDERS,
};
use mechanic_core::compile::compaction::{
    axes_aligned, can_merge, order_rows, plan_compaction, CompactCuboidKey, LanePair,
};
use mechanic_core::compile::compounds::CompoundPlan;
use mechanic_core::compile::cylinders::CylinderRows;
use mechanic_core::compile::drive_rows::{
    coordinate_drive, coordinate_drive_row, AccelerationCap, CoordinateDrive, DriveStrength,
};
use mechanic_core::compile::drives::{
    ActuatorSource, EngineShare, GearSelection, LaneDepths, PortCapacity, PortClaim,
};
use mechanic_core::compile::emission::{contact_material, ColliderSource};
use mechanic_core::compile::mass::{settle_mass, zero_tensor, MassSums, Tensor, WeighedPart, WeighedRegion};
use mechanic_core::compile::mechanism::{CompiledMechanism, MechanismInputs};
use mechanic_core::compile::model::{DriveMode, TopologyError};
use mechanic_core::drive::{DriveLimits, DriveProgram, DriveState, DriveTarget};
use mechanic_core::graph::ConstructionGraph;
use mechanic_core::grid::{BuildPose, GridRotation, GridVec, Sides};
use mechanic_core::ids::{BearingId, PartId, RegionId};
use mechanic_core::ordered::OrderedSet;
use mechanic_core::parts::{
    ActuatorAssignment, BearingSocket, BearingSpec, ConstructionMaterial, DriveLinkSpec, EdgeChainRef,
    EdgeTreatment, EngineKind, FaceKind, FaceOwner, FaceRef, JointHardware, JointKind, LayerFace,
    LinearDriveLimits, MaterialLayer, PartShape, PartSpec, RigidLinkSpec, ShapeFeature, SolidOwner,
    TopologyKey, TopologySource, WeldSpec,
};
use mechanic_core::region::ShapeRegion;
use mechanic_core::scalar::{Scalar, Triple};

fn number(value: f32) -> Scalar {
    Scalar::from_bits(value.to_bits())
}

fn triple(x: f32, y: f32, z: f32) -> Triple {
    Triple::new(number(x), number(y), number(z))
}

fn pose(x: i32, y: i32, z: i32) -> BuildPose {
    BuildPose::from_position_ticks(GridVec::new(x, y, z), GridRotation { x: 0, y: 0, z: 0 })
}

fn cuboid(sides: [u8; 3]) -> PartShape {
    PartShape::Cuboid {
        dimensions: Sides {
            x: sides[0],
            y: sides[1],
            z: sides[2],
        },
        material: ConstructionMaterial::Steel,
        appearance: MaterialAppearance::baked(),
    }
}

fn spawn_sized(graph: &mut ConstructionGraph, sides: [u8; 3], at: [i32; 3]) -> PartId {
    graph
        .parts
        .insert(PartSpec::bare(cuboid(sides), pose(at[0], at[1], at[2])))
}

fn spawn(graph: &mut ConstructionGraph, at: [i32; 3]) -> PartId {
    spawn_sized(graph, [4, 4, 4], at)
}

fn face(part: PartId, face: FaceKind) -> FaceRef {
    FaceRef {
        owner: FaceOwner::Part(part),
        face,
        patch: None,
    }
}

fn ground_face() -> FaceRef {
    FaceRef {
        owner: FaceOwner::Ground,
        face: FaceKind::PositiveY,
        patch: None,
    }
}

fn ground(graph: &mut ConstructionGraph, part: PartId) {
    graph.welds.insert(WeldSpec {
        first: face(part, FaceKind::NegativeY),
        second: ground_face(),
    });
}

fn rotational() -> JointKind {
    JointKind {
        hardware: JointHardware::Rotational,
        owns_head: false,
        translational: false,
        lower: Scalar::negative_infinity(),
        upper: Scalar::infinity(),
    }
}

fn joint(source: FaceRef, target: FaceRef, anchor: Triple, axis: Triple) -> BearingSpec {
    BearingSpec {
        source,
        target: Some(target),
        shared_anchor: anchor,
        axis,
        kind: rotational(),
        outer_diameter: number(0.25),
        inner_diameter: number(0.1),
    }
}

fn add_bearing(
    graph: &mut ConstructionGraph,
    source: (PartId, FaceKind),
    target: (PartId, FaceKind),
    anchor: Triple,
    axis: Triple,
) -> BearingId {
    graph.bearings.insert(joint(
        face(source.0, source.1),
        face(target.0, target.1),
        anchor,
        axis,
    ))
}

fn wire_spec(controller: PartId, bearing: BearingId) -> DriveLinkSpec {
    DriveLinkSpec {
        linear_limits: None,
        controller,
        bearing,
        reversed: false,
        actuator: ActuatorAssignment::Unpowered,
        limits: DriveLimits::default(),
        program: DriveProgram::default(),
        name: String::new(),
    }
}

fn spawn_module(graph: &mut ConstructionGraph) -> PartId {
    let controller = graph
        .parts
        .insert(PartSpec::bare(PartShape::Controller, pose(0, 40, 0)));
    let engine = graph.parts.insert(PartSpec::bare(
        PartShape::Engine {
            kind: EngineKind::Electric,
        },
        pose(0, 42, 0),
    ));
    graph.welds.insert(WeldSpec {
        first: face(controller, FaceKind::PositiveY),
        second: face(engine, FaceKind::NegativeY),
    });
    controller
}

fn wire_with(
    graph: &mut ConstructionGraph,
    bearing: BearingId,
    limits: DriveLimits,
    program: DriveProgram,
    reversed: bool,
) -> PartId {
    let controller = spawn_module(graph);
    let mut spec = wire_spec(controller, bearing);
    spec.limits = limits;
    spec.program = program;
    spec.reversed = reversed;
    spec.actuator = ActuatorAssignment::Motor {
        electric_percent: 100,
        gas_percent: 0,
    };
    graph.drive_links.insert(spec);
    controller
}

fn wire(graph: &mut ConstructionGraph, bearing: BearingId, reversed: bool) -> PartId {
    wire_with(
        graph,
        bearing,
        DriveLimits::default(),
        DriveProgram::default(),
        reversed,
    )
}

fn row_of(graph: &ConstructionGraph, part: PartId) -> usize {
    graph
        .parts
        .rows
        .index_of(part)
        .expect("the part is live in the graph")
}

fn compound_for(graph: &ConstructionGraph, plan: &CompoundPlan, part: PartId) -> u32 {
    plan.compound_of[row_of(graph, part)]
}

fn volume(spec: &PartSpec) -> f32 {
    match spec.shape {
        PartShape::Cuboid { dimensions, .. } => {
            f32::from(dimensions.x) * f32::from(dimensions.y) * f32::from(dimensions.z)
        }
        _ => 1.0,
    }
}

fn inputs(graph: &ConstructionGraph, plan: &CompoundPlan) -> MechanismInputs {
    let masses = plan
        .compounds
        .iter()
        .map(|compound| {
            number(
                compound
                    .source_parts
                    .iter()
                    .map(|part| volume(graph.part(*part).expect("live part")))
                    .sum::<f32>(),
            )
        })
        .collect();
    let depths = graph
        .parts
        .rows
        .keys
        .iter()
        .map(|_| LaneDepths {
            electric: Vec::new(),
            gas: Vec::new(),
        })
        .collect();
    let claims = graph
        .drive_links
        .rows
        .values
        .iter()
        .map(|link| {
            let home = compound_for(graph, plan, link.controller) as usize;
            let (electric, gas) = match link.actuator {
                ActuatorAssignment::Motor {
                    electric_percent,
                    gas_percent,
                } => (electric_percent > 0, gas_percent > 0),
                _ => (false, false),
            };
            PortClaim {
                module: plan.compounds[home].source_parts.clone(),
                electric,
                gas,
            }
        })
        .collect();
    MechanismInputs {
        masses,
        depths,
        claims,
        capacity: PortCapacity {
            electric: 4,
            gas: 4,
        },
    }
}

fn compile(graph: &ConstructionGraph) -> Result<(CompoundPlan, CompiledMechanism), TopologyError> {
    let plan = graph.plan_compounds(&OrderedSet::new())?;
    let inputs = inputs(graph, &plan);
    let mechanism = graph.compile_mechanism(&plan, &inputs)?;
    Ok((plan, mechanism))
}

#[test]
fn shared_bearing_attachments_compile_as_one_rotor_and_one_joint() {
    let mut graph = ConstructionGraph::new();
    let support = spawn(&mut graph, [0, 2, 0]);
    let targets =
        [[0, 9, 0], [2, 9, 0]].map(|center| spawn_sized(&mut graph, [1, 1, 1], center));
    for target in targets {
        let mut spec = joint(
            face(support, FaceKind::PositiveY),
            face(target, FaceKind::NegativeY),
            triple(0.0, 1.0, 0.0),
            triple(0.0, 1.0, 0.0),
        );
        spec.outer_diameter = number(0.80);
        spec.inner_diameter = number(0.10);
        graph.bearings.insert(spec);
    }
    graph.rigid_links.insert(RigidLinkSpec {
        first: targets[0],
        second: targets[1],
    });

    let (plan, compiled) = compile(&graph).unwrap();
    assert_eq!(plan.compounds.len(), 2);
    assert_eq!(compiled.topology.bearings.len(), 1);
    assert_eq!(
        compound_for(&graph, &plan, targets[0]),
        compound_for(&graph, &plan, targets[1])
    );
    assert_ne!(
        compound_for(&graph, &plan, support),
        compound_for(&graph, &plan, targets[0])
    );
}

#[test]
fn welding_to_ground_makes_only_that_group_static() {
    let mut graph = ConstructionGraph::new();
    let grounded = spawn(&mut graph, [0, 2, 0]);
    spawn(&mut graph, [8, 2, 0]);
    ground(&mut graph, grounded);

    let (plan, _) = compile(&graph).unwrap();
    assert_eq!(plan.compounds.len(), 2);
    assert!(plan.compounds[0].is_static);
    let sums = MassSums {
        mass: number(8.0),
        reciprocal: number(0.125),
        center: triple(0.0, 0.5, 0.0),
        inertia: zero_tensor(),
        determinant: number(1.0),
        inverse: zero_tensor(),
    };
    let settled = settle_mass(sums, plan.compounds[0].is_static, grounded).unwrap();
    assert_eq!(settled.inverse_mass, Scalar::zero());
    let moving = settle_mass(sums, plan.compounds[1].is_static, grounded).unwrap();
    assert_eq!(moving.inverse_mass, number(0.125));
    assert!(!plan.compounds[1].is_static);
}

#[test]
fn external_world_anchor_makes_only_its_rigid_group_static() {
    let mut graph = ConstructionGraph::new();
    let anchored = spawn(&mut graph, [0, 20, 0]);
    let floating = spawn(&mut graph, [8, 20, 0]);

    let (ordinary, _) = compile(&graph).unwrap();
    assert!(ordinary.compounds.iter().all(|compound| !compound.is_static));

    let mut anchors = OrderedSet::new();
    anchors.insert(anchored);
    let plan = graph.plan_compounds(&anchors).unwrap();
    assert!(plan.compounds[compound_for(&graph, &plan, anchored) as usize].is_static);
    assert!(!plan.compounds[compound_for(&graph, &plan, floating) as usize].is_static);
}

#[test]
fn an_empty_construction_is_refused() {
    let graph = ConstructionGraph::new();
    assert_eq!(
        graph.plan_compounds(&OrderedSet::new()).err(),
        Some(TopologyError::EmptyConstruction)
    );
}

/// Two blocks on a bearing, then welded to each other as well.
fn bearing_welded_shut() -> (ConstructionGraph, BearingId) {
    let mut graph = ConstructionGraph::new();
    let a = spawn(&mut graph, [0, 0, 0]);
    let b = spawn(&mut graph, [4, 0, 0]);
    let bearing = add_bearing(
        &mut graph,
        (a, FaceKind::PositiveX),
        (b, FaceKind::NegativeX),
        triple(0.5, 0.0, 0.0),
        triple(1.0, 0.0, 0.0),
    );
    graph.welds.insert(WeldSpec {
        first: face(a, FaceKind::PositiveX),
        second: face(b, FaceKind::NegativeX),
    });
    (graph, bearing)
}

#[test]
fn bearing_collapsed_by_a_later_weld_stops_being_a_joint() {
    let (graph, _) = bearing_welded_shut();

    let (plan, compiled) = compile(&graph).unwrap();

    // The weld already holds the two sides together, so the bearing adds
    // no coordinate and no constraint: it is locked, not unbuildable.
    assert_eq!(plan.compounds.len(), 1);
    assert!(compiled.topology.bearings.is_empty());
    assert!(compiled.topology.loop_topology.tree_bearings.is_empty());
    assert!(compiled.topology.loop_topology.closure_bearings.is_empty());
}

#[test]
fn a_driven_bearing_collapsed_by_a_later_weld_is_rejected() {
    let (mut graph, bearing) = bearing_welded_shut();
    wire(&mut graph, bearing, false);

    assert_eq!(
        compile(&graph).err(),
        Some(TopologyError::SelfBearing {
            bearing,
            compound: 0
        })
    );
}

#[test]
fn bearing_dimensions_do_not_change_compiled_physics() {
    let compile_with = |outer: f32, inner: f32| {
        let mut graph = ConstructionGraph::new();
        let a = spawn(&mut graph, [0, 0, 0]);
        let b = spawn(&mut graph, [4, 0, 0]);
        let mut spec = joint(
            face(a, FaceKind::PositiveX),
            face(b, FaceKind::NegativeX),
            triple(0.5, 0.0, 0.0),
            triple(1.0, 0.0, 0.0),
        );
        spec.outer_diameter = number(outer);
        spec.inner_diameter = number(inner);
        graph.bearings.insert(spec);
        let (plan, compiled) = compile(&graph).unwrap();
        format!("{plan:?} {compiled:?}")
    };

    assert_eq!(compile_with(0.25, 0.1), compile_with(0.50, 0.20));
}

fn square_loop(graph: &mut ConstructionGraph) -> [BearingId; 4] {
    let a = spawn(graph, [0, 0, 0]);
    let b = spawn(graph, [4, 0, 0]);
    let c = spawn(graph, [4, 4, 0]);
    let d = spawn(graph, [0, 4, 0]);
    [
        add_bearing(
            graph,
            (a, FaceKind::PositiveX),
            (b, FaceKind::NegativeX),
            triple(0.5, 0.0, 0.0),
            triple(1.0, 0.0, 0.0),
        ),
        add_bearing(
            graph,
            (b, FaceKind::PositiveY),
            (c, FaceKind::NegativeY),
            triple(1.0, 0.5, 0.0),
            triple(0.0, 1.0, 0.0),
        ),
        add_bearing(
            graph,
            (c, FaceKind::NegativeX),
            (d, FaceKind::PositiveX),
            triple(0.5, 1.0, 0.0),
            triple(-1.0, 0.0, 0.0),
        ),
        add_bearing(
            graph,
            (d, FaceKind::NegativeY),
            (a, FaceKind::PositiveY),
            triple(0.0, 0.5, 0.0),
            triple(0.0, -1.0, 0.0),
        ),
    ]
}

#[test]
fn closed_square_has_one_hard_closure_edge() {
    let mut graph = ConstructionGraph::new();
    square_loop(&mut graph);

    let (_, compiled) = compile(&graph).unwrap();
    let topology = &compiled.topology.loop_topology;
    assert_eq!(topology.tree_bearings.len(), 3);
    assert_eq!(topology.closure_bearings.len(), 1);
    assert_eq!(topology.mechanism_components, vec![vec![0, 1, 2, 3]]);
    assert_eq!(compiled.topology.collision_suppression.len(), 4);
    assert_eq!(compiled.dynamics.loops.len(), 1);
}

#[test]
fn floating_branch_has_one_canonical_root_and_stable_traversals() {
    let mut graph = ConstructionGraph::new();
    let root = spawn(&mut graph, [0, 0, 0]);
    let x_child = spawn(&mut graph, [4, 0, 0]);
    let y_child = spawn(&mut graph, [0, 4, 0]);
    add_bearing(
        &mut graph,
        (root, FaceKind::PositiveX),
        (x_child, FaceKind::NegativeX),
        triple(0.5, 0.0, 0.0),
        triple(1.0, 0.0, 0.0),
    );
    add_bearing(
        &mut graph,
        (root, FaceKind::PositiveY),
        (y_child, FaceKind::NegativeY),
        triple(0.0, 0.5, 0.0),
        triple(0.0, 1.0, 0.0),
    );

    let (_, compiled) = compile(&graph).unwrap();
    let topology = compiled.topology.loop_topology;
    assert_eq!(topology.component_roots, vec![vec![0]]);
    assert!(topology.body_parents[0].is_root);
    assert_eq!(topology.body_parents[1].parent_body, 0);
    assert_eq!(topology.body_parents[2].parent_body, 0);
    assert_eq!(topology.body_parents[1].preorder_index, 1);
    assert_eq!(topology.body_parents[2].preorder_index, 2);
    assert_eq!(topology.contraction_rounds, vec![vec![1, 2]]);
}

#[test]
fn a_heavier_chassis_is_the_root_of_its_branches() {
    let mut graph = ConstructionGraph::new();
    let left = spawn(&mut graph, [-2, 0, 0]);
    let right = spawn(&mut graph, [2, 0, 0]);
    let chassis = spawn_sized(&mut graph, [8, 4, 8], [0, 4, 0]);
    for (part, x) in [(left, -0.5), (right, 0.5)] {
        add_bearing(
            &mut graph,
            (chassis, FaceKind::NegativeY),
            (part, FaceKind::PositiveY),
            triple(x, 0.5, 0.0),
            triple(0.0, -1.0, 0.0),
        );
    }

    let (_, compiled) = compile(&graph).unwrap();
    let topology = compiled.topology.loop_topology;
    assert_eq!(topology.component_roots, vec![vec![2]]);
    assert!(topology.body_parents[2].is_root);
    assert_eq!(topology.body_parents[0].parent_body, 2);
    assert_eq!(topology.body_parents[1].parent_body, 2);
    assert_eq!(topology.tree_bearings.len(), 2);
}

#[test]
fn grounded_body_is_root_even_when_not_the_first_compound() {
    let mut graph = ConstructionGraph::new();
    let child = spawn(&mut graph, [0, 6, 0]);
    let root = spawn(&mut graph, [0, 2, 0]);
    ground(&mut graph, root);
    add_bearing(
        &mut graph,
        (child, FaceKind::NegativeY),
        (root, FaceKind::PositiveY),
        triple(0.0, 1.0, 0.0),
        triple(0.0, -1.0, 0.0),
    );

    let (_, compiled) = compile(&graph).unwrap();
    let topology = compiled.topology.loop_topology;
    assert_eq!(topology.component_roots, vec![vec![1]]);
    assert_eq!(topology.body_parents[0].parent_body, 1);
    assert_eq!(topology.body_parents[0].bearing_direction, 1);
    assert!(topology.body_parents[1].is_root);
}

#[test]
fn multiple_ground_anchors_remain_fixed_roots_with_a_closure_edge() {
    let mut graph = ConstructionGraph::new();
    let left = spawn(&mut graph, [0, 2, 0]);
    let middle = spawn(&mut graph, [4, 2, 0]);
    let right = spawn(&mut graph, [8, 2, 0]);
    ground(&mut graph, left);
    ground(&mut graph, right);
    add_bearing(
        &mut graph,
        (left, FaceKind::PositiveX),
        (middle, FaceKind::NegativeX),
        triple(0.5, 0.5, 0.0),
        triple(1.0, 0.0, 0.0),
    );
    add_bearing(
        &mut graph,
        (middle, FaceKind::PositiveX),
        (right, FaceKind::NegativeX),
        triple(1.5, 0.5, 0.0),
        triple(1.0, 0.0, 0.0),
    );

    let (_, compiled) = compile(&graph).unwrap();
    let topology = compiled.topology.loop_topology;
    assert_eq!(topology.component_roots, vec![vec![0, 2]]);
    assert_eq!(topology.tree_bearings.len(), 1);
    assert_eq!(topology.closure_bearings.len(), 1);
    assert!(topology.body_parents[0].is_root);
    assert_eq!(topology.body_parents[1].parent_body, 0);
    assert!(topology.body_parents[2].is_root);
}

#[test]
fn driven_bearing_is_preferred_as_a_tree_edge_over_a_passive_one() {
    // The last edge of the square would normally become the closure. Driving
    // it must push the closure onto a passive edge instead.
    let mut graph = ConstructionGraph::new();
    let bearings = square_loop(&mut graph);
    let driven = bearings[3];
    wire(&mut graph, driven, false);

    let (_, compiled) = compile(&graph).unwrap();
    let topology = compiled.topology.loop_topology;
    assert!(topology.tree_bearings.contains(&driven));
    assert_eq!(topology.closure_bearings.len(), 1);
    assert!(!topology.closure_bearings.contains(&driven));
}

#[test]
fn driven_bearing_forced_onto_a_closure_edge_is_rejected() {
    let mut graph = ConstructionGraph::new();
    let bearings = square_loop(&mut graph);
    for bearing in bearings {
        wire(&mut graph, bearing, false);
    }

    let Err(TopologyError::DrivenClosureBearing { bearing }) = compile(&graph) else {
        panic!("a fully driven loop cannot give every edge a coordinate")
    };
    assert!(bearings.contains(&bearing));
}

fn grounded_arm() -> (ConstructionGraph, BearingId) {
    let mut graph = ConstructionGraph::new();
    let base = spawn(&mut graph, [0, 2, 0]);
    ground(&mut graph, base);
    let arm = spawn(&mut graph, [4, 2, 0]);
    let bearing = add_bearing(
        &mut graph,
        (base, FaceKind::PositiveX),
        (arm, FaceKind::NegativeX),
        triple(0.5, 0.5, 0.0),
        triple(1.0, 0.0, 0.0),
    );
    (graph, bearing)
}

#[test]
fn duplicate_bearing_rows_share_one_coordinate() {
    let (mut graph, first) = grounded_arm();
    // A second row describing the same physical joint: same compounds, same
    // anchor, same axis. Compilation collapses it, but a drive may still be
    // wired to whichever row is at hand.
    let again = *graph.bearings.get(first).expect("live row");
    let duplicate = graph.bearings.insert(again);

    let (_, compiled) = compile(&graph).unwrap();
    let coordinates = &compiled.topology.loop_topology.bearing_coordinates;
    assert_eq!(compiled.topology.loop_topology.tree_bearings.len(), 1);
    assert_eq!(coordinates.get(first), coordinates.get(duplicate));
    assert!(coordinates.contains_key(duplicate));
}

#[test]
fn closure_bearings_have_no_coordinate_to_drive() {
    let mut graph = ConstructionGraph::new();
    let bearings = square_loop(&mut graph);
    let (_, compiled) = compile(&graph).unwrap();

    let topology = &compiled.topology.loop_topology;
    for closure in &topology.closure_bearings {
        assert!(!topology.bearing_coordinates.contains_key(*closure));
    }
    for tree in &topology.tree_bearings {
        assert!(topology.bearing_coordinates.contains_key(*tree));
    }
    assert_eq!(
        topology.bearing_coordinates.len(),
        bearings.len() - topology.closure_bearings.len()
    );
}

#[test]
fn coordinate_targets_apply_per_wire_reverse_and_leave_undriven_rows_free() {
    let mut graph = ConstructionGraph::new();
    let base = spawn(&mut graph, [0, 2, 0]);
    ground(&mut graph, base);
    let first = spawn(&mut graph, [0, 6, 0]);
    let second = spawn(&mut graph, [0, 10, 0]);
    let lower = add_bearing(
        &mut graph,
        (base, FaceKind::PositiveY),
        (first, FaceKind::NegativeY),
        triple(0.0, 1.0, 0.0),
        triple(0.0, 1.0, 0.0),
    );
    add_bearing(
        &mut graph,
        (first, FaceKind::PositiveY),
        (second, FaceKind::NegativeY),
        triple(0.0, 2.0, 0.0),
        triple(0.0, 1.0, 0.0),
    );
    let limits = DriveLimits::new(
        number(4.0),
        number(20.0),
        Some((number(-1.0), number(1.0))),
    )
    .unwrap();
    let program = DriveProgram::new(
        &[DriveState::new(DriveTarget::Speed(number(3.0))).unwrap()],
        false,
    )
    .unwrap();
    wire_with(&mut graph, lower, limits, program, true);

    let (_, compiled) = compile(&graph).unwrap();
    let tree = &compiled.topology.loop_topology.tree_bearings;
    let inertias = vec![number(1.0); tree.len()];
    let targets = graph.resolve_coordinate_targets(tree, &inertias);
    assert_eq!(targets.len(), 2);
    let driven = tree.iter().position(|&bearing| bearing == lower).unwrap();
    let drive = targets[driven].drive.expect("a wired coordinate");
    assert_eq!(drive.target, DriveTarget::Speed(number(-3.0)));
    assert_eq!(drive.limits.min_angle(), number(-1.0));
    assert_eq!(drive.limits.max_angle(), number(1.0));
    assert!(targets[1 - driven].drive.is_none());
    assert_eq!(DriveMode::default().code(), 0);
}

/// Torque of one electric engine, in newton metres.
const ELECTRIC_TORQUE: f32 = 500.0;

fn torque(share: EngineShare) -> f32 {
    let ratio = f32::from_bits(share.ratio.to_bits());
    ELECTRIC_TORQUE * share.engines as f32 / share.consumers as f32 * f32::from(share.percent)
        / 100.0
        * ratio
}

#[test]
fn one_engine_splits_its_torque_across_its_assigned_coordinates() {
    let mut graph = ConstructionGraph::new();
    let base = spawn(&mut graph, [0, 2, 0]);
    ground(&mut graph, base);
    let right = spawn(&mut graph, [4, 2, 0]);
    let left = spawn(&mut graph, [-4, 2, 0]);
    let bearings = [
        add_bearing(
            &mut graph,
            (base, FaceKind::PositiveX),
            (right, FaceKind::NegativeX),
            triple(0.5, 0.5, 0.0),
            triple(1.0, 0.0, 0.0),
        ),
        add_bearing(
            &mut graph,
            (base, FaceKind::NegativeX),
            (left, FaceKind::PositiveX),
            triple(-0.5, 0.5, 0.0),
            triple(-1.0, 0.0, 0.0),
        ),
    ];
    let controller = spawn_module(&mut graph);
    for bearing in bearings {
        let mut link = wire_spec(controller, bearing);
        link.actuator = ActuatorAssignment::Motor {
            electric_percent: 100,
            gas_percent: 0,
        };
        link.program = DriveProgram::new(
            &[DriveState::new(DriveTarget::Speed(number(20.0))).unwrap()],
            false,
        )
        .unwrap();
        graph.drive_links.insert(link);
    }

    let (_, compiled) = compile(&graph).unwrap();
    assert_eq!(compiled.actuation.len(), 2);
    for actuation in &compiled.actuation {
        let ActuatorSource::Motor {
            electric: Some(share),
            gas: None,
        } = actuation.source
        else {
            panic!("an electric motor turns both coordinates")
        };
        assert!((torque(share) - 250.0).abs() < 1.0e-3);
    }
}

#[test]
fn ideal_gearing_multiplies_torque_divides_speed_and_can_disengage_one_family() {
    let (mut graph, bearing) = grounded_arm();
    let controller = wire(&mut graph, bearing, false);
    let (plan, compiled) = compile(&graph).unwrap();
    let inputs = inputs(&graph, &plan);
    let share = |gears: Vec<GearSelection>| {
        let rows = graph
            .resolve_coordinate_actuation(
                &compiled.topology.loop_topology,
                &inputs.claims,
                inputs.capacity,
                &gears,
            )
            .unwrap();
        match rows[0].source {
            ActuatorSource::Motor { electric, .. } => electric,
            _ => None,
        }
    };
    let direct = share(vec![]).expect("direct drive");
    let geared = share(vec![GearSelection {
        controller,
        kind: EngineKind::Electric,
        ratio: Some(number(4.0)),
    }])
    .expect("geared drive");
    assert!((torque(geared) / torque(direct) - 4.0).abs() < 1.0e-5);
    let speed = |share: EngineShare| 12.0 / f32::from_bits(share.ratio.to_bits());
    assert!((speed(direct) / speed(geared) - 4.0).abs() < 1.0e-5);

    let disengaged = share(vec![GearSelection {
        controller,
        kind: EngineKind::Electric,
        ratio: None,
    }]);
    assert_eq!(disengaged, None);
}

#[test]
fn assigned_motor_without_a_touching_engine_is_rejected() {
    let (mut graph, bearing) = grounded_arm();
    let controller = graph
        .parts
        .insert(PartSpec::bare(PartShape::Controller, pose(0, 40, 0)));
    let mut link = wire_spec(controller, bearing);
    link.actuator = ActuatorAssignment::Motor {
        electric_percent: 100,
        gas_percent: 0,
    };
    link.program = DriveProgram::new(
        &[DriveState::new(DriveTarget::Speed(number(1.0))).unwrap()],
        false,
    )
    .unwrap();
    graph.drive_links.insert(link);

    assert_eq!(
        compile(&graph).err(),
        Some(TopologyError::InsufficientElectricPorts {
            controller,
            required: 1,
            available: 0,
        })
    );
}

#[test]
fn a_servo_cannot_follow_a_speed() {
    let (mut graph, bearing) = grounded_arm();
    let controller = spawn_module(&mut graph);
    let mut link = wire_spec(controller, bearing);
    link.actuator = ActuatorAssignment::Servo;
    link.program = DriveProgram::new(
        &[DriveState::new(DriveTarget::Speed(number(1.0))).unwrap()],
        false,
    )
    .unwrap();
    graph.drive_links.insert(link);
    assert_eq!(
        compile(&graph).err(),
        Some(TopologyError::IncompatibleActuatorProgram { bearing })
    );
}

#[test]
fn a_servo_joint_needs_a_servo() {
    let (mut graph, bearing) = grounded_arm();
    let controller = spawn_module(&mut graph);
    let mut link = wire_spec(controller, bearing);
    link.actuator = ActuatorAssignment::Servo;
    link.program = DriveProgram::new(
        &[DriveState::new(DriveTarget::Angle(number(1.0))).unwrap()],
        false,
    )
    .unwrap();
    graph.drive_links.insert(link);
    assert_eq!(
        compile(&graph).err(),
        Some(TopologyError::InsufficientServos {
            controller,
            required: 1,
            available: 0,
        })
    );
}

#[test]
fn a_gas_joint_needs_a_gas_engine() {
    let (mut graph, bearing) = grounded_arm();
    let controller = spawn_module(&mut graph);
    let mut link = wire_spec(controller, bearing);
    link.actuator = ActuatorAssignment::Motor {
        electric_percent: 0,
        gas_percent: 100,
    };
    graph.drive_links.insert(link);
    assert_eq!(
        compile(&graph).err(),
        Some(TopologyError::InsufficientGasPorts {
            controller,
            required: 1,
            available: 0,
        })
    );
}

#[test]
fn engines_of_one_lane_stand_behind_equal_transmissions() {
    let (mut graph, bearing) = grounded_arm();
    let controller = wire(&mut graph, bearing, false);
    let plan = graph.plan_compounds(&OrderedSet::new()).unwrap();
    let mut uneven = inputs(&graph, &plan);
    uneven.depths[row_of(&graph, controller)].electric = vec![0, 2];
    assert_eq!(
        graph.compile_mechanism(&plan, &uneven).err(),
        Some(TopologyError::TransmissionDepthMismatch {
            controller,
            kind: EngineKind::Electric,
            depths: vec![0, 2],
        })
    );
}

#[test]
fn independent_bodies_have_disjoint_six_velocity_components() {
    let mut graph = ConstructionGraph::new();
    for x in [0, 10] {
        spawn_sized(&mut graph, [1, 1, 1], [x, 10, 0]);
    }
    let (_, creation) = compile(&graph).unwrap();
    let dynamics = &creation.dynamics;
    assert_eq!(dynamics.components.len(), 2);
    let spans: Vec<(usize, usize)> = dynamics
        .body_velocities
        .iter()
        .map(|span| (span.start, span.end))
        .collect();
    assert_eq!(spans, [(0, 6), (6, 12)]);
    assert_eq!(dynamics.elimination_parent[0], None);
    assert_eq!(dynamics.elimination_parent[6], None);
    let (_, again) = compile(&graph).unwrap();
    assert_eq!(format!("{dynamics:?}"), format!("{:?}", again.dynamics));
}

#[test]
fn a_hinged_arm_adds_one_velocity_to_its_fixed_base() {
    let (graph, _) = grounded_arm();
    let (_, creation) = compile(&graph).unwrap();
    let spans: Vec<(usize, usize)> = creation
        .dynamics
        .body_velocities
        .iter()
        .map(|span| (span.start, span.end))
        .collect();
    assert_eq!(spans, [(0, 0), (0, 1)]);
    assert_eq!(creation.dynamics.elimination_parent, [None]);
    assert_eq!(creation.dynamics.preorder, [0, 1]);
    assert_eq!(creation.dynamics.postorder, [1, 0]);
}

#[test]
fn a_weightless_compound_is_refused() {
    let mut graph = ConstructionGraph::new();
    let part = spawn(&mut graph, [0, 0, 0]);
    let sums = MassSums {
        mass: number(0.0),
        reciprocal: Scalar::infinity(),
        center: triple(0.0, 0.0, 0.0),
        inertia: zero_tensor(),
        determinant: number(1.0),
        inverse: zero_tensor(),
    };
    assert_eq!(
        settle_mass(sums, false, part),
        Err(TopologyError::InvalidMassProperties { part })
    );
}

#[test]
fn collider_rows_are_counted_and_bounded() {
    assert_eq!(cylinder_collider_count(None), CYLINDER_COLLIDER_COUNT);
    assert_eq!(CYLINDER_COLLIDER_COUNT, 16);
    let spiral = SpiralRows {
        ridge_segments: 40,
        steps_per_turn: 24,
    };
    assert_eq!(cylinder_collider_count(Some(spiral)), 80);
    let mut graph = ConstructionGraph::new();
    let part = spawn(&mut graph, [0, 0, 0]);
    assert!(!graph.owner_has_shape_features(SolidOwner::Part(part)));
    let no_regions: Vec<RegionRows> = Vec::new();
    let rows = |feature_cells: usize, junction: usize| PartRows {
        feature_cells,
        junction,
        spiral: None,
    };
    assert_eq!(
        graph.check_collider_budget(&vec![rows(0, 0)], &no_regions),
        Ok(1)
    );
    graph.parts.insert(PartSpec::bare(
        PartShape::PipeJunction {
            outer_diameter: number(0.5),
            inner_diameter: number(0.0),
            arms: 3,
            material: ConstructionMaterial::Steel,
            appearance: MaterialAppearance::baked(),
        },
        pose(8, 0, 0),
    ));
    assert_eq!(
        graph.check_collider_budget(
            &vec![rows(0, 0), rows(0, MAX_COMPILED_COLLIDERS)],
            &no_regions
        ),
        Err(TopologyError::ColliderBudgetExceeded {
            required: MAX_COMPILED_COLLIDERS + 1,
            available: MAX_COMPILED_COLLIDERS,
        })
    );
}

fn key(material: u32, across: i64, along: i64) -> CompactCuboidKey {
    CompactCuboidKey {
        material: [material; 6],
        other_bounds: [across; 4],
        along_minimum: along,
    }
}

#[test]
fn boxes_are_ordered_by_material_lane_and_place() {
    let keys = vec![
        key(2, 0, 0),
        key(1, 5, 9),
        key(1, 5, 3),
        key(1, 4, 9),
        key(1, 5, 3),
    ];
    assert_eq!(order_rows(&keys), vec![3, 2, 4, 1, 0]);
}

#[test]
fn only_lone_aligned_boxes_may_merge() {
    let mut graph = ConstructionGraph::new();
    let a = spawn(&mut graph, [0, 0, 0]);
    let b = spawn(&mut graph, [10, 0, 0]);
    let c = spawn(&mut graph, [20, 0, 0]);
    let plan = plan_compaction(&vec![a, b, b, c], &vec![true, true, true, false]);
    assert_eq!(plan.boxes, vec![0]);
    assert_eq!(plan.preserved, vec![1, 2, 3]);
}

#[test]
fn touching_boxes_of_one_lane_merge() {
    let pair = LanePair {
        compounds: (0, 0),
        first_material: [7; 6],
        second_material: [7; 6],
        across: [number(0.0), number(-1.0e-6), number(1.0e-7), number(0.0)],
        along: number(1.0e-6),
    };
    assert!(can_merge(pair));
    let mut other = pair;
    other.compounds.1 = 1;
    assert!(!can_merge(other));
    let mut other = pair;
    other.second_material[5] = 8;
    assert!(!can_merge(other));
    let mut other = pair;
    other.along = number(1.1e-6);
    assert!(!can_merge(other));
    let mut other = pair;
    other.across[3] = number(-1.0e-3);
    assert!(!can_merge(other));
}

#[test]
fn turned_boxes_stand_along_the_axes_by_quarter_turns_alone() {
    let axes = |rows: [[f32; 3]; 3]| rows.map(|row| row.map(number));
    assert!(axes_aligned(axes([
        [0.0, 1.0, 0.0],
        [1.0, 0.0, 0.0],
        [0.0, 0.0, 1.0]
    ])));
    assert!(!axes_aligned(axes([
        [0.0, 1.0, 0.0],
        [0.0, 1.0, 0.0],
        [0.0, 0.0, 1.0]
    ])));
    assert!(!axes_aligned(axes([
        [0.8, 0.6, 0.0],
        [0.6, 0.8, 0.0],
        [0.0, 0.0, 1.0]
    ])));
}

#[test]
fn a_joint_carries_everything_behind_it() {
    let mut graph = ConstructionGraph::new();
    let base = spawn(&mut graph, [0, 0, 0]);
    let arm = spawn(&mut graph, [10, 0, 0]);
    let hand = spawn(&mut graph, [20, 0, 0]);
    ground(&mut graph, base);
    let shoulder = add_bearing(
        &mut graph,
        (base, FaceKind::PositiveX),
        (arm, FaceKind::NegativeX),
        triple(0.5, 0.0, 0.0),
        triple(1.0, 0.0, 0.0),
    );
    let wrist = add_bearing(
        &mut graph,
        (arm, FaceKind::PositiveX),
        (hand, FaceKind::NegativeX),
        triple(1.5, 0.0, 0.0),
        triple(1.0, 0.0, 0.0),
    );
    let (plan, mechanism) = compile(&graph).unwrap();
    let fixed = plan
        .compounds
        .iter()
        .map(|compound| compound.is_static)
        .collect::<Vec<_>>();
    let forest = &mechanism.topology.loop_topology;
    let carried = |bearing| forest.carried(bearing, &fixed);
    let (arm, hand) = (
        compound_for(&graph, &plan, arm),
        compound_for(&graph, &plan, hand),
    );
    assert_eq!(carried(shoulder), Some(vec![arm, hand]));
    assert_eq!(carried(wrist), Some(vec![hand]));
    let mut anchored = fixed.clone();
    anchored[hand as usize] = true;
    assert_eq!(forest.carried(shoulder, &anchored), None);
}

fn strength(max_speed: f32) -> DriveStrength {
    DriveStrength {
        max_speed: number(max_speed),
        max_acceleration: number(6.0),
        source_a_max_acceleration: number(4.0),
        source_a_no_load_speed: number(20.0),
        source_b_max_acceleration: number(2.0),
        source_b_no_load_speed: number(10.0),
    }
}

#[test]
fn drive_rows_follow_targets_within_speed() {
    let limits = DriveLimits::default();
    let fast = coordinate_drive(DriveTarget::Speed(number(50.0)), limits, strength(20.0));
    assert_eq!(fast.mode, DriveMode::Speed);
    assert_eq!(fast.target_speed, number(20.0));
    let back = coordinate_drive(DriveTarget::Speed(number(-50.0)), limits, strength(20.0));
    assert_eq!(back.target_speed, number(-20.0));
    let held = coordinate_drive(DriveTarget::Angle(number(1.5)), limits, strength(20.0));
    assert_eq!(held.mode, DriveMode::Angle);
    assert_eq!(held.target_angle, number(1.5));
    assert_eq!(held.max_acceleration, number(6.0));
    let idle = coordinate_drive(DriveTarget::Speed(number(1.0)), limits, strength(0.0));
    assert_eq!(idle, CoordinateDrive::passive());
}

#[test]
fn sliding_rows_stay_within_their_wires_envelope() {
    let limits = LinearDriveLimits {
        minimum: number(-1.0),
        maximum: number(0.5),
        max_speed: number(2.0),
        max_force: number(10.0),
    };
    let cap = AccelerationCap {
        acceleration: number(3.0),
        source_a: number(2.0),
        source_b: number(1.0),
    };
    let row = coordinate_drive(
        DriveTarget::Angle(number(4.0)),
        DriveLimits::default(),
        strength(20.0),
    )
    .limited(limits, number(-0.25), number(1.0), cap);
    assert_eq!(row.min_angle, number(-0.25));
    assert_eq!(row.max_angle, number(0.5));
    assert_eq!(row.target_angle, number(0.5));
    assert_eq!(row.max_speed, number(2.0));
    assert_eq!(row.max_acceleration, number(3.0));
    assert_eq!(row.source_b_max_acceleration, number(1.0));
}

#[test]
fn coordinates_that_cannot_follow_stay_passive() {
    let limits = DriveLimits::default();
    let target = DriveTarget::Speed(number(1.0));
    let enter = |kind, in_metres, movable| {
        coordinate_drive_row(
            kind,
            in_metres,
            target,
            limits,
            movable,
            CoordinateDrive::passive(),
            strength(5.0),
        )
    };
    assert_eq!(enter(None, false, true), CoordinateDrive::passive());
    assert_eq!(
        enter(Some(rotational()), false, false),
        CoordinateDrive::passive()
    );
    let mut slide = rotational();
    slide.translational = true;
    slide.lower = number(0.0);
    slide.upper = number(1.0);
    assert_eq!(
        enter(Some(slide), false, true),
        CoordinateDrive::passive()
    );
    let mut spring = slide;
    spring.hardware = JointHardware::Suspension;
    assert_eq!(
        enter(Some(spring), true, true),
        CoordinateDrive::passive_between(number(0.0), number(1.0))
    );
    assert_eq!(
        enter(Some(spring), true, false),
        CoordinateDrive::passive_between(number(0.0), number(1.0))
    );
    assert_eq!(
        enter(Some(spring), false, true),
        CoordinateDrive::passive()
    );
    assert_eq!(
        enter(Some(rotational()), false, true).target_speed,
        number(1.0)
    );
}

fn identity() -> Tensor {
    Tensor {
        x_axis: triple(1.0, 0.0, 0.0),
        y_axis: triple(0.0, 1.0, 0.0),
        z_axis: triple(0.0, 0.0, 1.0),
    }
}

fn measures(graph: &ConstructionGraph, plan: &CompoundPlan) -> CompileMeasures {
    let inputs = inputs(graph, plan);
    CompileMeasures {
        part_rows: graph
            .parts
            .rows
            .keys
            .iter()
            .map(|_| PartRows {
                feature_cells: 2,
                junction: 3,
                spiral: None,
            })
            .collect(),
        region_rows: graph
            .regions
            .rows
            .keys
            .iter()
            .map(|_| RegionRows {
                feature_cells: 5,
                pieces: 4,
            })
            .collect(),
        sums: inputs
            .masses
            .iter()
            .map(|mass| MassSums {
                mass: *mass,
                reciprocal: number(0.5),
                center: triple(1.0, 2.0, 3.0),
                inertia: identity(),
                determinant: number(1.0),
                inverse: identity(),
            })
            .collect(),
        kept_rows: (1..=plan.compounds.len() as u32).collect(),
        depths: inputs.depths,
        claims: inputs.claims,
        capacity: inputs.capacity,
    }
}

fn compile_whole(
    graph: &ConstructionGraph,
    adjust: impl FnOnce(&mut CompileMeasures),
) -> Result<CompiledCreation, TopologyError> {
    let plan = graph.plan_compounds(&OrderedSet::new())?;
    let mut measures = measures(graph, &plan);
    adjust(&mut measures);
    graph.compile_graph(&plan, measures)
}

#[test]
fn a_compiled_arm_has_its_masses_rows_and_joint() {
    let (graph, bearing) = grounded_arm();
    let creation = compile_whole(&graph, |_| {}).unwrap();
    assert_eq!(creation.bodies.len(), 2);
    let (base, arm) = (&creation.bodies[0], &creation.bodies[1]);
    assert_eq!(base.mass_properties.inverse_mass, number(0.0));
    assert_eq!(base.mass_properties.inverse_inertia, zero_tensor());
    assert_eq!(base.mass_properties.inertia, identity());
    assert_eq!(arm.mass_properties.inverse_mass, number(0.5));
    assert_eq!(arm.mass_properties.center_of_mass, triple(1.0, 2.0, 3.0));
    // Ranges adjoin: one row, then two.
    assert_eq!((base.first_collider, base.end_collider), (0, 1));
    assert_eq!((arm.first_collider, arm.end_collider), (1, 3));
    let parts = &graph.parts.rows.keys;
    assert_eq!(creation.part_to_compound, [(parts[0], 0), (parts[1], 1)]);
    assert_eq!(
        creation.mechanism.topology.loop_topology.tree_bearings,
        [bearing]
    );
    assert_eq!(
        arm.sources,
        [ColliderSource::Part {
            part: parts[1],
            round: false,
        }]
    );
}

#[test]
fn rows_are_refused_before_masses_and_masses_before_joints() {
    let (graph, bearing) = bearing_welded_shut();
    let part = graph.parts.rows.keys[0];
    let mut graph = graph;
    wire(&mut graph, bearing, false);
    let fault = compile_whole(&graph, |measures| {
        measures.sums[0].mass = number(0.0);
        measures.part_rows.clear();
        for _ in 0..graph.parts.rows.keys.len() {
            measures.part_rows.push(PartRows {
                feature_cells: MAX_COMPILED_COLLIDERS,
                junction: 0,
                spiral: None,
            });
        }
        // No part has features, so each counts for one row.
    })
    .err();
    assert_eq!(fault, Some(TopologyError::InvalidMassProperties { part }));
    let locked = compile_whole(&graph, |_| {}).err();
    assert_eq!(
        locked,
        Some(TopologyError::SelfBearing {
            bearing,
            compound: 0,
        })
    );
    graph.shape_features.insert(ShapeFeature {
        targets: vec![EdgeChainRef {
            owner: SolidOwner::Part(part),
            edge: TopologyKey {
                source: TopologySource::Base,
                local: 0,
            },
        }],
        treatment: EdgeTreatment::Chamfer,
        amount_ticks: 1,
    });
    let crowded = compile_whole(&graph, |measures| {
        measures.sums[0].mass = number(0.0);
        measures.part_rows[0].feature_cells = MAX_COMPILED_COLLIDERS + 1;
    })
    .err();
    let others = graph.parts.rows.keys.len() - 1;
    assert_eq!(
        crowded,
        Some(TopologyError::ColliderBudgetExceeded {
            required: MAX_COMPILED_COLLIDERS + 1 + others,
            available: MAX_COMPILED_COLLIDERS,
        })
    );
}

#[test]
fn regions_give_the_rows_of_the_parts_inside_them() {
    let mut graph = ConstructionGraph::new();
    let outside = spawn(&mut graph, [0, 0, 0]);
    let first = spawn(&mut graph, [8, 0, 0]);
    let second = spawn(&mut graph, [16, 0, 0]);
    let round = graph.parts.insert(PartSpec::bare(
        PartShape::Cylinder {
            outer_diameter: number(1.0),
            inner_diameter: number(-0.0),
            length_units: 2,
            sweep_degrees: 360,
            material: ConstructionMaterial::Steel,
            appearance: MaterialAppearance::baked(),
        },
        pose(24, 0, 0),
    ));
    let layer = MaterialLayer {
        face: LayerFace::OuterWall,
        thickness: number(0.1),
        material: ConstructionMaterial::Rubber,
        appearance: MaterialAppearance::baked(),
    };
    let mut layered = PartSpec::bare(cuboid([4, 4, 4]), pose(32, 0, 0));
    layered.layers.push(layer);
    let layered = graph.parts.insert(layered);
    for part in [first, second, round, layered] {
        graph.rigid_links.insert(RigidLinkSpec {
            first: outside,
            second: part,
        });
    }
    let region = graph.regions.insert(ShapeRegion {
        origin_steps: GridVec::new(0, 0, 0),
        size_cells: GridVec::new(4, 4, 4),
        material: ConstructionMaterial::Steel,
        appearance: MaterialAppearance::baked(),
        divisions_x: Vec::new(),
        divisions_y: Vec::new(),
        divisions_z: Vec::new(),
        vertices: Vec::new(),
    });
    graph.region_members.insert(second, region);
    graph.region_members.insert(first, region);
    let plan = graph.plan_compounds(&OrderedSet::new()).unwrap();
    assert_eq!(plan.compounds.len(), 1);
    assert_eq!(
        graph.collider_sources(&plan.compounds[0]),
        [
            ColliderSource::Part {
                part: outside,
                round: false,
            },
            ColliderSource::Part {
                part: round,
                round: true,
            },
            ColliderSource::EvaluatedPart { part: layered },
            ColliderSource::Region {
                region,
                part: first,
            },
        ]
    );
    graph.shape_features.insert(ShapeFeature {
        targets: vec![EdgeChainRef {
            owner: SolidOwner::Region(region),
            edge: TopologyKey {
                source: TopologySource::Base,
                local: 0,
            },
        }],
        treatment: EdgeTreatment::Fillet,
        amount_ticks: 1,
    });
    assert_eq!(
        graph.collider_sources(&plan.compounds[0])[3],
        ColliderSource::EvaluatedRegion {
            region,
            part: first,
        }
    );
}

fn region_over_one_block() -> (ConstructionGraph, PartId, RegionId) {
    let mut graph = ConstructionGraph::new();
    let block = spawn_sized(&mut graph, [1, 1, 1], [1, 1, 1]);
    let region = graph.regions.insert(ShapeRegion {
        origin_steps: GridVec::new(0, 0, 0),
        size_cells: GridVec::new(1, 1, 1),
        material: ConstructionMaterial::Steel,
        appearance: MaterialAppearance::baked(),
        divisions_x: Vec::new(),
        divisions_y: Vec::new(),
        divisions_z: Vec::new(),
        vertices: Vec::new(),
    });
    graph.region_members.insert(block, region);
    (graph, block, region)
}

#[test]
fn a_regions_blocks_contribute_no_colliders_of_their_own() {
    // The region owns the geometry; counting the block too would render and
    // collide the same material twice.
    let (graph, block, region) = region_over_one_block();
    let creation = compile_whole(&graph, |_| {}).unwrap();
    assert_eq!(
        creation.bodies[0].sources,
        [ColliderSource::Region {
            region,
            part: block,
        }]
    );
    // The region's mass replaces its block's, it does not add to it.
    let plan = graph.plan_compounds(&OrderedSet::new()).unwrap();
    let load = graph.load_compound(&plan.compounds[0], &Vec::new(), &Vec::new(), &Vec::new());
    assert_eq!(load.identifying_part, block);
    assert!(load.parts.is_empty());
    assert_eq!(
        load.regions,
        [WeighedRegion {
            region,
            evaluated: false,
        }]
    );
}

#[test]
fn a_hollow_cylinder_or_sector_has_no_analytic_description() {
    for (inner_diameter, sweep_degrees) in [(0.5, 360), (0.0, 255)] {
        let mut graph = ConstructionGraph::new();
        let part = graph.parts.insert(PartSpec::bare(
            PartShape::Cylinder {
                outer_diameter: number(1.0),
                inner_diameter: number(inner_diameter),
                length_units: 1,
                sweep_degrees,
                material: ConstructionMaterial::Steel,
                appearance: MaterialAppearance::baked(),
            },
            pose(0, 0, 0),
        ));
        let rows = PartRows {
            feature_cells: 0,
            junction: 0,
            spiral: None,
        };
        assert_eq!(
            graph.check_collider_budget(&vec![rows], &Vec::new()),
            Ok(CYLINDER_COLLIDER_COUNT)
        );
        let creation = compile_whole(&graph, |_| {}).unwrap();
        assert_eq!(
            creation.bodies[0].sources,
            [ColliderSource::Part { part, round: false }]
        );
    }
}

#[test]
fn an_unshaped_creation_still_compiles_to_one_collider_per_block() {
    // Regions must cost nothing where none exist.
    let mut graph = ConstructionGraph::new();
    for offset in 0..4 {
        spawn(&mut graph, [offset * 4, 0, 0]);
    }
    let rows = graph
        .parts
        .rows
        .keys
        .iter()
        .map(|_| PartRows {
            feature_cells: 0,
            junction: 0,
            spiral: None,
        })
        .collect();
    assert_eq!(graph.check_collider_budget(&rows, &Vec::new()), Ok(4));
    let creation = compile_whole(&graph, |_| {}).unwrap();
    assert_eq!(creation.bodies.len(), 4);
    for (body, part) in creation.bodies.iter().zip(&graph.parts.rows.keys) {
        assert_eq!(
            body.sources,
            [ColliderSource::Part {
                part: *part,
                round: false,
            }]
        );
    }
}

fn suspended(source: PartId) -> BearingSocket {
    BearingSocket {
        kind: JointKind {
            hardware: JointHardware::Suspension,
            owns_head: true,
            translational: true,
            lower: number(-0.1),
            upper: number(0.1),
        },
        axis: triple(1.0, 0.0, 0.0),
        source: face(source, FaceKind::PositiveX),
        anchor: triple(0.5, 0.5, 0.0),
        outer_diameter: number(0.25),
        inner_diameter: number(0.1),
    }
}

#[test]
fn an_unattached_ring_weighs_once_on_its_own_compound() {
    let mut graph = ConstructionGraph::new();
    let source = spawn(&mut graph, [0, 2, 0]);
    let other = spawn(&mut graph, [40, 2, 0]);
    let socket = suspended(source);
    let plan = graph.plan_compounds(&OrderedSet::new()).unwrap();
    let sockets = vec![socket, socket];
    let load = |at: usize, weighty: [bool; 2]| {
        graph.load_compound(
            &plan.compounds[at],
            &Vec::new(),
            &sockets,
            &weighty.to_vec(),
        )
    };
    assert_eq!(load(0, [true, true]).sockets, [0]);
    assert_eq!(load(0, [false, true]).sockets, [1]);
    assert!(load(0, [false, false]).sockets.is_empty());
    assert!(load(1, [true, true]).sockets.is_empty());
    assert_eq!(
        load(1, [true, true]).parts,
        [WeighedPart {
            part: other,
            evaluated: false,
        }]
    );
}

#[test]
fn an_attached_ring_weighs_with_its_joint_on_both_sides() {
    let mut graph = ConstructionGraph::new();
    let source = spawn(&mut graph, [0, 2, 0]);
    let target = spawn(&mut graph, [6, 2, 0]);
    let socket = suspended(source);
    for _ in 0..2 {
        graph.bearings.insert(BearingSpec {
            source: socket.source,
            target: Some(face(target, FaceKind::NegativeX)),
            shared_anchor: socket.anchor,
            axis: socket.axis,
            kind: socket.kind,
            outer_diameter: socket.outer_diameter,
            inner_diameter: socket.inner_diameter,
        });
    }
    let plan = graph.plan_compounds(&OrderedSet::new()).unwrap();
    assert_eq!(plan.compounds.len(), 2);
    // Each assembly has one element here and one on the far side; the second
    // joint shares the first one's assembly.
    let elements = vec![vec![false, true], vec![false, true]];
    for (at, element) in [(0, 0), (1, 1)] {
        let with = graph.load_compound(
            &plan.compounds[at],
            &elements,
            &vec![socket],
            &vec![true],
        );
        assert!(with.sockets.is_empty());
        assert_eq!(with.hardware.len(), 1);
        assert_eq!(with.hardware[0].bearing, 0);
        assert_eq!(with.hardware[0].element, element);
        let without =
            graph.load_compound(&plan.compounds[at], &elements, &Vec::new(), &Vec::new());
        assert_eq!(with.hardware, without.hardware);
    }
}

#[test]
fn a_wheel_touches_with_its_outermost_wall() {
    let wheel = PartShape::Cylinder {
        outer_diameter: number(1.0),
        inner_diameter: number(0.0),
        length_units: 1,
        sweep_degrees: 360,
        material: ConstructionMaterial::Steel,
        appearance: MaterialAppearance::baked(),
    };
    assert_eq!(
        contact_material(wheel, None),
        Some(ConstructionMaterial::Steel)
    );
    let tyre = Some(ConstructionMaterial::Rubber);
    assert_eq!(contact_material(wheel, tyre), tyre);
    assert_eq!(
        contact_material(cuboid([1, 1, 1]), tyre),
        Some(ConstructionMaterial::Steel)
    );
    assert_eq!(contact_material(PartShape::Controller, tyre), None);
}

#[test]
fn a_compiled_creation_gives_the_row_of_each_coordinate() {
    let (mut graph, bearing) = grounded_arm();
    let program = DriveProgram::new(
        &[DriveState::new(DriveTarget::Speed(number(3.0))).unwrap()],
        false,
    )
    .unwrap();
    wire_with(&mut graph, bearing, DriveLimits::default(), program, true);
    let creation = compile_whole(&graph, |_| {}).unwrap();
    let cap = AccelerationCap {
        acceleration: Scalar::infinity(),
        source_a: Scalar::infinity(),
        source_b: Scalar::infinity(),
    };
    let drives = |inertia: f32, max_speed: f32| {
        creation.resolve_coordinate_drives(
            &graph,
            &vec![number(inertia)],
            &vec![strength(max_speed)],
            &vec![cap],
        )
    };
    let rows = drives(2.0, 20.0);
    assert_eq!(rows.len(), 1);
    assert_eq!(rows[0].mode, DriveMode::Speed);
    assert_eq!(rows[0].target_speed, number(-3.0));
    assert_eq!(rows[0].max_speed, number(20.0));
    assert_eq!(drives(2.0, 2.0)[0].target_speed, number(-2.0));
    assert_eq!(drives(f32::INFINITY, 20.0), [CoordinateDrive::passive()]);

    // The same creation follows a construction whose program was retuned.
    let mut retuned = grounded_arm().0;
    let program = DriveProgram::new(
        &[DriveState::new(DriveTarget::Angle(number(0.5))).unwrap()],
        false,
    )
    .unwrap();
    wire_with(&mut retuned, bearing, DriveLimits::default(), program, false);
    let rows = creation.resolve_coordinate_drives(
        &retuned,
        &vec![number(2.0)],
        &vec![strength(20.0)],
        &vec![cap],
    );
    assert_eq!(rows[0].mode, DriveMode::Angle);
    assert_eq!(rows[0].target_angle, number(0.5));
}

#[test]
fn no_coordinate_is_powered_where_a_module_lacks_a_port() {
    let (mut graph, bearing) = grounded_arm();
    let controller = spawn_module(&mut graph);
    let mut link = wire_spec(controller, bearing);
    link.actuator = ActuatorAssignment::Motor {
        electric_percent: 100,
        gas_percent: 0,
    };
    link.program = DriveProgram::new(
        &[DriveState::new(DriveTarget::Speed(number(3.0))).unwrap()],
        false,
    )
    .unwrap();
    graph.drive_links.insert(link);
    let creation = compile_whole(&graph, |_| {}).unwrap();
    let plan = graph.plan_compounds(&OrderedSet::new()).unwrap();
    let inputs = inputs(&graph, &plan);
    let powered =
        creation.actuation_in_gear(&graph, &inputs.claims, inputs.capacity, &Vec::new());
    assert!(matches!(powered[..], [row] if matches!(row.source, ActuatorSource::Motor { .. })));
    let none = PortCapacity {
        electric: 0,
        gas: 0,
    };
    let idle = creation.actuation_in_gear(&graph, &inputs.claims, none, &Vec::new());
    assert!(matches!(idle[..], [row] if row.source == ActuatorSource::Idle));
}

#[test]
fn only_followed_targets_need_ordered_travel_and_a_speed() {
    let backwards = CoordinateDrive {
        min_angle: number(1.0),
        max_angle: number(-1.0),
        ..CoordinateDrive::passive()
    };
    let speed = DriveTarget::Speed(number(1.0));
    let limits = DriveLimits::default();
    let mut slide = rotational();
    slide.translational = true;
    let enter = |kind, in_metres, movable| {
        coordinate_drive_row(
            kind,
            in_metres,
            speed,
            limits,
            movable,
            backwards,
            strength(f32::NAN),
        )
    };
    assert_eq!(enter(None, false, true), CoordinateDrive::passive());
    assert_eq!(enter(Some(slide), false, true), CoordinateDrive::passive());
    assert_eq!(enter(Some(slide), true, false), CoordinateDrive::passive());
    let turned = coordinate_drive_row(
        Some(rotational()),
        false,
        speed,
        limits,
        true,
        backwards,
        strength(5.0),
    );
    assert_eq!(turned.target_speed, number(1.0));
}

#[test]
fn cylinders_keep_their_rows_behind_the_merged_boxes() {
    let (graph, _) = grounded_arm();
    let mut body = compile_whole(&graph, |_| {}).unwrap().bodies.remove(0);
    let id = |index| PartId { index, generation: 0 };
    let source = |index, round| ColliderSource::Part { part: id(index), round };
    body.first_collider = 40;
    body.sources = vec![
        source(0, false),
        source(1, true),
        source(2, false),
        source(3, true),
        source(4, true),
        source(5, false),
    ];
    // Two boxes, a skewed box, two cylinders, one of them with a ridge, and a tube.
    let counts = vec![1, 16, 1, 20, 16, 16];
    let mut aligned = vec![true; 70];
    let first = CylinderRows { part: id(1), first_collider: 41 };
    let last = |first_collider| CylinderRows { part: id(4), first_collider };
    assert_eq!(body.cylinder_rows(&counts, &aligned, 1), [first, last(77)]);
    // A box that cannot merge stays among the rows.
    aligned[17] = false;
    assert_eq!(body.cylinder_rows(&counts, &aligned, 1), [first, last(78)]);
    aligned[0] = false;
    let first = CylinderRows { part: id(1), first_collider: 41 };
    assert_eq!(body.cylinder_rows(&counts, &aligned, 0), [first, last(78)]);
}

#[test]
fn constructions_are_ready_when_everything_is_live_and_measured() {
    let (mut graph, bearing) = grounded_arm();
    let controller = wire(&mut graph, bearing, false);
    assert!(graph.references_are_live());
    assert!(graph.programs_are_valid());
    let plan = graph.plan_compounds(&OrderedSet::new()).unwrap();
    let ready = |adjust: fn(&mut CompileMeasures)| {
        let mut measures = measures(&graph, &plan);
        adjust(&mut measures);
        graph.is_measured(&plan, &measures)
    };
    assert!(ready(|_| {}));
    assert!(!ready(|measures| measures.part_rows.clear()));
    assert!(!ready(|measures| measures.sums.clear()));
    assert!(!ready(|measures| measures.claims.clear()));
    assert!(ready(|measures| measures.kept_rows[0] = u32::MAX - 10));
    assert!(!ready(|measures| measures.kept_rows[0] = u32::MAX));
    assert!(!ready(|measures| measures.capacity.electric = u32::MAX));
    graph.shape_features.insert(ShapeFeature {
        targets: vec![EdgeChainRef {
            owner: SolidOwner::Part(controller),
            edge: TopologyKey {
                source: TopologySource::Base,
                local: 0,
            },
        }],
        treatment: EdgeTreatment::Chamfer,
        amount_ticks: 1,
    });
    let mut crowded = measures(&graph, &plan);
    let row = row_of(&graph, controller);
    crowded.part_rows[row].feature_cells = usize::MAX;
    assert!(!graph.is_measured(&plan, &crowded));
    let base = graph.parts.rows.keys[0];
    graph.parts.remove(base);
    assert!(!graph.references_are_live());
}
