//! Meshes between toothed parts and the order in which they are phased.

use bevy_math::Vec3;
use mechanic_core::gear_link::{
    mesh, GearEnd, GearLinkError, GearLinkKind, GearMeasures, GearMesh, MeshMeasures, PitchGap,
    RackMeasures, ScrewMeasures, ToothCut, WormMeasures,
};
use mechanic_core::gear_phase::{phase_order, MeshEdge, PhaseLead, PhaseStep};
use mechanic_core::scalar::{Scalar, Triple};

fn number(value: f32) -> Scalar {
    Scalar::from_bits(value.to_bits())
}

fn value(number: Scalar) -> f32 {
    f32::from_bits(number.to_bits())
}

fn triple(vector: Vec3) -> Triple {
    Triple::new(number(vector.x), number(vector.y), number(vector.z))
}

/// One part with everything that is measured of it.
#[derive(Clone, Copy)]
enum Part {
    Gear {
        module_ticks: u8,
        teeth: u16,
        cut: ToothCut,
        center: Vec3,
        axis: Vec3,
        half_length: f32,
    },
    Rack {
        module_ticks: u8,
        pitch_center: Vec3,
        normal: Vec3,
        across: Vec3,
        half_along: f32,
        half_across: f32,
    },
    Screw {
        center: Vec3,
        axis: Vec3,
        half_length: f32,
        pitch_radius: f32,
        pitch: f32,
        advance: f32,
    },
    Plain {
        center: Vec3,
        half_extent: f32,
    },
}

fn module(ticks: u8) -> f32 {
    f32::from(ticks) * 0.0025
}

fn radius(ticks: u8, teeth: u16) -> f32 {
    module(ticks) * f32::from(teeth) * 0.5
}

fn end(part: Part) -> GearEnd {
    match part {
        Part::Gear {
            module_ticks,
            teeth,
            cut,
            center,
            axis,
            ..
        } => GearEnd::Gear {
            module_ticks,
            cut,
            pitch_radius: number(radius(module_ticks, teeth)),
            center: triple(center),
            axis: triple(axis),
        },
        Part::Rack {
            module_ticks,
            pitch_center,
            normal,
            ..
        } => GearEnd::Rack {
            module_ticks,
            pitch_center: triple(pitch_center),
            normal: triple(normal),
        },
        Part::Screw {
            center,
            axis,
            pitch_radius,
            advance,
            ..
        } => GearEnd::Screw {
            center: triple(center),
            axis: triple(axis),
            pitch_radius: number(pitch_radius),
            advance: number(advance),
        },
        Part::Plain { .. } => GearEnd::Plain,
    }
}

fn gap(meters: f32, module: f32) -> PitchGap {
    PitchGap {
        meters: number(meters),
        millimeters: number(meters * 1000.0),
        widest: number(module),
        deepest: number(-0.5 * module),
    }
}

fn perpendicular(vector: Vec3, axis: Vec3) -> Vec3 {
    vector - axis * vector.dot(axis)
}

fn measure(first: Part, second: Part) -> MeshMeasures {
    match (first, second) {
        (
            Part::Gear {
                module_ticks,
                teeth,
                center,
                axis,
                half_length,
                ..
            },
            Part::Gear {
                module_ticks: other_module,
                teeth: other_teeth,
                center: other_center,
                axis: other_axis,
                half_length: other_half,
                ..
            },
        ) => {
            let size = module(module_ticks);
            let near = radius(module_ticks, teeth);
            let far = radius(other_module, other_teeth);
            let offset = other_center - center;
            let cross = axis.cross(other_axis);
            let distance = perpendicular(offset, axis).length();
            let toward = perpendicular(offset, axis).normalize_or_zero();
            let back = perpendicular(-offset, other_axis).normalize_or_zero();
            let cone = (center + toward * near).distance(other_center + back * far);
            MeshMeasures::Gears(GearMeasures {
                axis_sine: number(cross.length()),
                axis_miss: number((offset.dot(cross) / cross.length()).abs()),
                axis_cosine: number(axis.dot(other_axis).abs()),
                axial_offset: number(offset.dot(axis).abs()),
                face_reach: number(half_length + other_half),
                cone_gap: gap(cone, size),
                outer_gap: gap(distance - (near + far), size),
                inner_gap: gap(distance - (near - far).abs(), size),
            })
        }
        (
            Part::Gear {
                module_ticks,
                teeth,
                center,
                axis,
                half_length,
                ..
            },
            Part::Rack {
                pitch_center,
                normal,
                across,
                half_along,
                half_across,
                ..
            },
        ) => {
            let offset = center - pitch_center;
            MeshMeasures::Rack(RackMeasures {
                axis_cosine: number(axis.dot(across).abs()),
                along_offset: number(offset.dot(normal.cross(across)).abs()),
                half_along: number(half_along),
                across_offset: number(offset.dot(across).abs()),
                across_reach: number(half_across + half_length),
                gap: gap(
                    offset.dot(normal) - radius(module_ticks, teeth),
                    module(module_ticks),
                ),
            })
        }
        (
            Part::Gear {
                module_ticks,
                teeth,
                center,
                axis,
                half_length,
                ..
            },
            Part::Screw {
                center: worm_center,
                axis: worm_axis,
                half_length: worm_half,
                pitch_radius,
                pitch,
                ..
            },
        ) => {
            let size = module(module_ticks);
            let offset = worm_center - center;
            let cross = axis.cross(worm_axis).normalize();
            let along_wheel = offset.dot(axis);
            let along_worm = -offset.dot(worm_axis);
            MeshMeasures::Worm(WormMeasures {
                pitch_error: number((pitch - size * core::f32::consts::PI).abs()),
                pitch_tolerance: number(0.5 * size),
                axis_cosine: number(axis.dot(worm_axis).abs()),
                along_wheel: number(along_wheel.abs()),
                wheel_half: number(half_length),
                along_worm: number(along_worm.abs()),
                worm_half: number(worm_half),
                wheel_center: triple(center + axis * along_wheel),
                worm_center: triple(worm_center + worm_axis * along_worm),
                gap: gap(
                    offset.dot(cross).abs() - radius(module_ticks, teeth) - pitch_radius,
                    size,
                ),
            })
        }
        (
            Part::Plain {
                center,
                half_extent,
            },
            Part::Screw {
                center: screw_center,
                axis,
                ..
            },
        ) => {
            let on_axis = screw_center + axis * (center - screw_center).dot(axis);
            MeshMeasures::Screw(ScrewMeasures {
                axis_distance: number(center.distance(on_axis)),
                half_extent: number(half_extent),
                on_axis: triple(on_axis),
            })
        }
        (Part::Rack { .. } | Part::Screw { .. }, Part::Gear { .. })
        | (Part::Screw { .. }, Part::Plain { .. }) => measure(second, first),
        _ => MeshMeasures::Nothing,
    }
}

fn meshed(first: Part, second: Part) -> Result<GearMesh, GearLinkError> {
    mesh(end(first), end(second), measure(first, second))
}

fn wheel(teeth: u16, cut: ToothCut, center: Vec3, axis: Vec3) -> Part {
    Part::Gear {
        module_ticks: 4,
        teeth,
        cut,
        center,
        axis,
        half_length: 0.125,
    }
}

fn gear(teeth: u16, center: Vec3, axis: Vec3) -> Part {
    wheel(teeth, ToothCut::Spur, center, axis)
}

fn rack() -> Part {
    Part::Rack {
        module_ticks: 4,
        pitch_center: Vec3::new(0.0, -0.01, 0.0),
        normal: Vec3::Y,
        across: Vec3::Z,
        half_along: 1.0,
        half_across: 0.125,
    }
}

fn worm(pitch: f32, pitch_radius: f32) -> Part {
    Part::Screw {
        center: Vec3::new(0.15 + 0.04, 0.0, 0.0),
        axis: Vec3::Z,
        half_length: 0.25,
        pitch_radius,
        pitch,
        advance: pitch / core::f32::consts::TAU,
    }
}

#[test]
fn spur_gears_mesh_when_their_pitch_circles_touch() {
    let a = gear(12, Vec3::ZERO, Vec3::Y);
    let b = gear(36, Vec3::new(0.24, 0.0, 0.0), Vec3::Y);
    let found = meshed(a, b).expect("tangent");
    assert_eq!(found.kind, GearLinkKind::Gears);
    assert!(found.turns_both());
    let ratio = (value(found.second.pitch_radius) / value(found.first.pitch_radius)).abs();
    assert!((ratio - 3.0).abs() < 1.0e-6);
    let far = gear(36, Vec3::new(0.26, 0.0, 0.0), Vec3::Y);
    assert!(matches!(
        meshed(a, far),
        Err(GearLinkError::NotTangent { .. })
    ));
    let tilted = gear(36, Vec3::new(0.24, 0.0, 0.0), Vec3::X);
    assert_eq!(meshed(a, tilted), Err(GearLinkError::AxesNotParallel));
    let raised = gear(36, Vec3::new(0.24, 0.3, 0.0), Vec3::Y);
    assert_eq!(meshed(a, raised), Err(GearLinkError::NoFaceOverlap));
}

#[test]
fn a_pinion_meshes_inside_a_ring_on_the_difference_of_their_radii() {
    let pinion = gear(12, Vec3::new(0.30, 0.0, 0.0), Vec3::Y);
    let ring = wheel(72, ToothCut::Internal, Vec3::ZERO, Vec3::Y);
    assert!(meshed(ring, pinion).is_ok());
    assert!(!meshed(pinion, ring).expect("either order").swapped);
    let big = gear(80, Vec3::ZERO, Vec3::Y);
    assert_eq!(meshed(ring, big), Err(GearLinkError::LargerThanRing));
}

#[test]
fn a_pinion_meshes_a_rack_with_its_axis_across_the_teeth() {
    let pinion = gear(12, Vec3::new(0.3, 0.05, 0.0), Vec3::Z);
    let found = meshed(pinion, rack()).expect("tangent");
    assert_eq!(found.kind, GearLinkKind::Rack);
    let wrong_way = gear(12, Vec3::new(0.3, 0.05, 0.0), Vec3::X);
    assert_eq!(
        meshed(wrong_way, rack()),
        Err(GearLinkError::AxisNotAcrossRack)
    );
    let beyond = gear(12, Vec3::new(1.3, 0.05, 0.0), Vec3::Z);
    assert_eq!(meshed(beyond, rack()), Err(GearLinkError::OffRack));
}

#[test]
fn a_wheel_meshes_a_worm_across_perpendicular_axes() {
    let wheel = gear(30, Vec3::ZERO, Vec3::Y);
    let thread = worm(module(4) * core::f32::consts::PI, 0.04);
    let found = meshed(wheel, thread).expect("tangent");
    assert_eq!(found.kind, GearLinkKind::Worm);
    let nut = Part::Plain {
        center: Vec3::new(0.19, 0.0, 0.1),
        half_extent: 0.125,
    };
    assert_eq!(
        meshed(nut, thread).expect("nut").kind,
        GearLinkKind::Screw
    );
    let away = Part::Plain {
        center: Vec3::new(0.5, 0.0, 0.1),
        half_extent: 0.125,
    };
    assert_eq!(meshed(away, thread), Err(GearLinkError::NutOffAxis));
    assert_eq!(meshed(nut, wheel), Err(GearLinkError::NeedsTeeth));
}

#[test]
fn a_mesh_is_the_same_in_either_order() {
    let pinion = gear(12, Vec3::new(0.3, 0.05, 0.0), Vec3::Z);
    let forward = meshed(pinion, rack()).unwrap();
    let backward = meshed(rack(), pinion).unwrap();
    assert!(!forward.swapped);
    assert!(backward.swapped);
    assert_eq!(forward.first, backward.first);
    assert_eq!(forward.second, backward.second);
}

#[test]
fn a_ring_turns_with_a_negative_pitch_radius() {
    let pinion = gear(12, Vec3::new(0.30, 0.0, 0.0), Vec3::Y);
    let ring = wheel(72, ToothCut::Internal, Vec3::ZERO, Vec3::Y);
    let found = meshed(ring, pinion).unwrap();
    assert!((value(found.first.pitch_radius) + 0.36).abs() < 1.0e-6);
    assert!((value(found.second.pitch_radius) - 0.06).abs() < 1.0e-6);
}

#[test]
fn bevel_gears_mesh_where_their_cones_meet() {
    let cone = |center, axis| wheel(20, ToothCut::Bevel, center, axis);
    let upright = cone(Vec3::ZERO, Vec3::Y);
    assert!(meshed(upright, cone(Vec3::new(0.1, 0.1, 0.0), Vec3::X)).is_ok());
    assert_eq!(
        meshed(upright, cone(Vec3::new(0.1, 0.1, 0.0), Vec3::Y)),
        Err(GearLinkError::AxesDoNotMeet)
    );
    assert_eq!(
        meshed(upright, cone(Vec3::new(0.1, 0.1, 0.3), Vec3::X)),
        Err(GearLinkError::AxesDoNotMeet)
    );
    assert_eq!(
        meshed(upright, gear(20, Vec3::X * 0.2, Vec3::Y)),
        Err(GearLinkError::BevelWithSpur)
    );
}

#[test]
fn pairs_without_a_coupling_are_named() {
    let thread = worm(module(4) * core::f32::consts::PI, 0.04);
    assert_eq!(meshed(rack(), rack()), Err(GearLinkError::TwoRacks));
    assert_eq!(meshed(thread, thread), Err(GearLinkError::TwoSpirals));
    assert_eq!(meshed(rack(), thread), Err(GearLinkError::RackOnSpiral));
    assert_eq!(meshed(thread, rack()), Err(GearLinkError::RackOnSpiral));
    let ring = wheel(72, ToothCut::Internal, Vec3::ZERO, Vec3::Y);
    assert_eq!(meshed(ring, ring), Err(GearLinkError::TwoRings));
    assert_eq!(meshed(ring, rack()), Err(GearLinkError::NeedsSpur));
    let coarse = Part::Gear {
        module_ticks: 8,
        teeth: 12,
        cut: ToothCut::Spur,
        center: Vec3::X * 0.2,
        axis: Vec3::Y,
        half_length: 0.125,
    };
    assert_eq!(
        meshed(gear(12, Vec3::ZERO, Vec3::Y), coarse),
        Err(GearLinkError::ModuleMismatch)
    );
}

#[test]
fn a_worm_needs_a_thread_of_the_wheels_pitch_across_its_axis() {
    let pitch = module(4) * core::f32::consts::PI;
    let upright = gear(30, Vec3::ZERO, Vec3::Y);
    assert_eq!(
        meshed(upright, worm(pitch, 0.0)),
        Err(GearLinkError::NeedsThread)
    );
    assert_eq!(
        meshed(upright, worm(pitch * 2.0, 0.04)),
        Err(GearLinkError::PitchMismatch)
    );
    assert_eq!(
        meshed(gear(30, Vec3::ZERO, Vec3::Z + Vec3::Y), worm(pitch, 0.04)),
        Err(GearLinkError::AxesNotPerpendicular)
    );
    assert_eq!(
        meshed(gear(30, Vec3::Y * 0.3, Vec3::Y), worm(pitch, 0.04)),
        Err(GearLinkError::NoFaceOverlap)
    );
}

#[test]
fn a_gap_of_one_module_and_an_overlap_of_half_still_mesh() {
    let fixed = gear(12, Vec3::ZERO, Vec3::Y);
    let at = |x| meshed(fixed, gear(36, Vec3::new(x, 0.0, 0.0), Vec3::Y));
    assert!(at(0.249).is_ok());
    assert!(at(0.236).is_ok());
    assert!(matches!(
        at(0.2345),
        Err(GearLinkError::NotTangent { gap_millimeters }) if value(gap_millimeters) < -5.0
    ));
    assert!(matches!(
        at(0.2505),
        Err(GearLinkError::NotTangent { gap_millimeters }) if value(gap_millimeters) > 10.0
    ));
}

fn edge(first: usize, second: usize) -> MeshEdge {
    MeshEdge { first, second }
}

fn start(part: usize) -> PhaseStep {
    PhaseStep { part, lead: None }
}

fn follow(part: usize, step: usize, edge: usize) -> PhaseStep {
    PhaseStep {
        part,
        lead: Some(PhaseLead { step, edge }),
    }
}

#[test]
fn a_train_follows_its_lowest_gear() {
    let order = phase_order(
        &vec![false, false, false],
        &vec![true, true, true],
        &vec![edge(2, 1), edge(0, 1)],
    );
    assert_eq!(order, vec![start(0), follow(1, 0, 1), follow(2, 1, 0)]);
}

#[test]
fn gears_on_a_rack_turn_to_suit_it() {
    let order = phase_order(
        &vec![false, false, true],
        &vec![true, true, false],
        &vec![edge(0, 1), edge(1, 2)],
    );
    assert_eq!(order, vec![start(2), follow(1, 0, 1), follow(0, 1, 0)]);
}

#[test]
fn a_closed_train_is_phased_along_one_path() {
    let order = phase_order(
        &vec![false, false, false, false],
        &vec![true, true, true, true],
        &vec![edge(0, 1), edge(0, 2), edge(1, 3), edge(2, 3)],
    );
    assert_eq!(
        order,
        vec![
            start(0),
            follow(1, 0, 0),
            follow(2, 0, 1),
            follow(3, 1, 2)
        ]
    );
}

#[test]
fn separate_trains_start_separately_and_other_parts_are_left_alone() {
    let order = phase_order(
        &vec![false, false, false, false, false],
        &vec![true, false, true, true, false],
        &vec![edge(2, 3)],
    );
    assert_eq!(order, vec![start(0), start(2), follow(3, 1, 0)]);
}

#[test]
fn only_gears_have_a_pitch_radius_in_a_mesh() {
    let wheel = gear(30, Vec3::ZERO, Vec3::Y);
    let thread = worm(module(4) * core::f32::consts::PI, 0.04);
    let found = meshed(wheel, thread).expect("tangent");
    assert!((value(found.first.pitch_radius) - 0.15).abs() < 1.0e-6);
    assert_eq!(value(found.second.pitch_radius), 0.0);
    let nut = Part::Plain {
        center: Vec3::new(0.19, 0.0, 0.1),
        half_extent: 0.125,
    };
    let found = meshed(nut, thread).expect("nut");
    assert_eq!(value(found.first.pitch_radius), 0.0);
    assert_eq!(value(found.second.pitch_radius), 0.0);
}
