//! Meshes between toothed parts: which pairs may mesh and how they couple.
//!
//! A mesh is a magnetic coupling, not a contact. Two meshing parts never touch,
//! and the ratio comes from tooth counts rather than from the built centre
//! distance. That is why a mesh only has to be roughly tangent: a gap of up to
//! one module or an overlap of half a module is accepted, and the teeth do not
//! have to be phased.

use vstd::arithmetic::power2::{lemma2_to64, lemma2_to64_rest};
use vstd::prelude::*;

use crate::exact::{
    coded, encodes, lemma_encoded, numbers_compare_as_their_values, rounds,
    signs_are_those_of_values,
};
use crate::scalar::{Scalar, Triple};

verus! {

/// Largest gap between two pitch surfaces that still meshes, in modules: 1.
pub const GEAR_MESH_GAP_MODULES: u32 = 0x3F80_0000;

/// Largest overlap of two pitch surfaces that still meshes, in modules: one half.
pub const GEAR_MESH_OVERLAP_MODULES: u32 = 0x3F00_0000;

/// Cosine above which two axes count as parallel: 0.9998, about 1.1 degrees.
pub const GEAR_PARALLEL_COSINE: u32 = 0x3F7F_F2E5;

/// Cosine below which two axes count as perpendicular: 0.02, about 1.1 degrees.
pub const GEAR_PERPENDICULAR_COSINE: u32 = 0x3CA3_D70A;

/// Why two parts do not mesh.
#[derive(Clone, Copy, Debug, PartialEq, Eq, Structural)]
pub enum GearLinkError {
    /// Neither part has teeth, a thread, or is a nut on a thread.
    NeedsTeeth,
    /// Two racks cannot mesh.
    TwoRacks,
    /// Two threads cannot mesh.
    TwoSpirals,
    /// A rack and a thread cannot mesh.
    RackOnSpiral,
    /// Two ring gears cannot mesh.
    TwoRings,
    /// A bevel gear only meshes with another bevel gear.
    BevelWithSpur,
    /// Racks and worms take straight external teeth.
    NeedsSpur,
    /// The teeth are different sizes.
    ModuleMismatch,
    /// A worm's pitch does not match the wheel's teeth.
    PitchMismatch,
    /// A spiral cut only into its bore, or a taper alone, has no thread to mesh.
    NeedsThread,
    /// Spur and ring gears mesh on parallel axes.
    AxesNotParallel,
    /// Bevel gears mesh on intersecting axes.
    AxesDoNotMeet,
    /// A worm meshes across perpendicular axes.
    AxesNotPerpendicular,
    /// A pinion's axis runs across a rack, parallel to its face.
    AxisNotAcrossRack,
    /// The pitch surfaces are too far apart or too deep into each other.
    NotTangent {
        /// Signed pitch-surface gap, negative when overlapping.
        gap_millimeters: Scalar,
    },
    /// The teeth do not pass each other along the axis.
    NoFaceOverlap,
    /// The pinion is not over the rack's face.
    OffRack,
    /// A pinion larger than the ring it should sit in.
    LargerThanRing,
    /// A nut must surround its thread.
    NutOffAxis,
}

/// How a mesh couples its two sides, with the special side second.
#[derive(Clone, Copy, Debug, PartialEq, Eq, Hash, Structural)]
pub enum GearLinkKind {
    /// Two toothed wheels: spur, ring, or bevel pairs.
    Gears,
    /// A spur gear on a rack.
    Rack,
    /// A spur gear driven across a threaded cylinder.
    Worm,
    /// Any part riding a thread as a nut.
    Screw,
}

/// How a wheel's teeth are cut.
#[derive(Clone, Copy, Debug, PartialEq, Eq, Hash, Structural)]
pub enum ToothCut {
    /// Straight external teeth.
    Spur,
    /// Straight teeth inside a ring.
    Internal,
    /// Teeth on a cone.
    Bevel,
}

/// One part as a mesh sees it, in world space at the rest pose.
#[allow(inconsistent_fields)]
#[derive(Clone, Copy, Debug, PartialEq, Eq, Structural)]
pub enum GearEnd {
    /// A toothed cylinder.
    Gear {
        /// Tooth size in position ticks.
        module_ticks: u8,
        /// How the teeth are cut.
        cut: ToothCut,
        /// Pitch radius.
        pitch_radius: Scalar,
        /// Point on the axis in the pitch plane; the large end of a bevel gear.
        center: Triple,
        /// Unit axis.
        axis: Triple,
    },
    /// A toothed cuboid face.
    Rack {
        /// Tooth size in position ticks.
        module_ticks: u8,
        /// Centre of the pitch plane, one addendum below the face.
        pitch_center: Triple,
        /// Outward face normal.
        normal: Triple,
    },
    /// A threaded cylinder.
    Screw {
        /// Axis midpoint.
        center: Triple,
        /// Unit axis.
        axis: Triple,
        /// Radius halfway down the thread.
        pitch_radius: Scalar,
        /// Signed axial advance per radian about the axis.
        advance: Scalar,
    },
    /// Anything else, which can only ride a thread.
    Plain,
}

/// One side of a resolved mesh, in world space at the rest pose.
#[derive(Clone, Copy, Debug, PartialEq, Eq, Structural)]
pub struct GearMeshSide {
    /// Point surface speed is measured from: the axis point in the pitch plane
    /// for a gear or thread, the pitch-plane centre for a rack, the point on
    /// the thread's axis for a nut.
    pub center: Triple,
    /// Unit axis for a gear or thread; the outward pitch-plane normal for a rack.
    pub axis: Triple,
    /// Pitch radius for a gear, negative for internal teeth; zero otherwise.
    pub pitch_radius: Scalar,
}

/// A mesh two parts admit.
#[derive(Clone, Copy, Debug, PartialEq, Eq, Structural)]
pub struct GearMesh {
    /// How the sides couple.
    pub kind: GearLinkKind,
    /// The first side in the order the kind names them.
    pub first: GearMeshSide,
    /// The second side.
    pub second: GearMeshSide,
    /// Thread advance per radian, for worms and screws; zero otherwise.
    pub advance: Scalar,
    /// Whether the resolved sides are the caller's ends in reverse order.
    pub swapped: bool,
}

/// Distance between two pitch surfaces and how much of it still meshes.
#[derive(Clone, Copy, Debug, PartialEq, Eq, Structural)]
pub struct PitchGap {
    /// Signed gap in metres, negative when overlapping.
    pub meters: Scalar,
    /// The same gap in millimetres.
    pub millimeters: Scalar,
    /// Widest gap, in metres.
    pub widest: Scalar,
    /// Deepest overlap as a gap, in metres.
    pub deepest: Scalar,
}

/// What is measured between two gears.
#[derive(Clone, Copy, Debug, PartialEq, Eq, Structural)]
pub struct GearMeasures {
    /// Sine of the angle between the axes.
    pub axis_sine: Scalar,
    /// How far the axis lines miss each other.
    pub axis_miss: Scalar,
    /// Absolute cosine of the angle between the axes.
    pub axis_cosine: Scalar,
    /// Distance of the centres along the first axis.
    pub axial_offset: Scalar,
    /// Half of both face widths.
    pub face_reach: Scalar,
    /// Gap between cones.
    pub cone_gap: PitchGap,
    /// Gap between wheels that stand side by side.
    pub outer_gap: PitchGap,
    /// Gap between a pinion and the ring around it.
    pub inner_gap: PitchGap,
}

/// What is measured between a gear and a rack.
#[derive(Clone, Copy, Debug, PartialEq, Eq, Structural)]
pub struct RackMeasures {
    /// Absolute cosine between the gear's axis and the tooth direction.
    pub axis_cosine: Scalar,
    /// Distance of the centres along the teeth's row.
    pub along_offset: Scalar,
    /// Half the face's extent along the row.
    pub half_along: Scalar,
    /// Distance of the centres across the row.
    pub across_offset: Scalar,
    /// Half the face across the row and half the gear's face width.
    pub across_reach: Scalar,
    /// Gap between the pitch circle and the pitch plane.
    pub gap: PitchGap,
}

/// What is measured between a wheel and a worm.
#[derive(Clone, Copy, Debug, PartialEq, Eq, Structural)]
pub struct WormMeasures {
    /// Absolute difference of the thread's pitch and the tooth spacing.
    pub pitch_error: Scalar,
    /// Largest difference that still meshes.
    pub pitch_tolerance: Scalar,
    /// Absolute cosine of the angle between the axes.
    pub axis_cosine: Scalar,
    /// Distance of the pitch point along the wheel's axis from its centre.
    pub along_wheel: Scalar,
    /// Half the wheel's face width.
    pub wheel_half: Scalar,
    /// Distance of the pitch point along the worm's axis from its centre.
    pub along_worm: Scalar,
    /// Half the thread's length.
    pub worm_half: Scalar,
    /// The wheel's axis point nearest the worm.
    pub wheel_center: Triple,
    /// The worm's axis point nearest the wheel.
    pub worm_center: Triple,
    /// Gap between the pitch surfaces.
    pub gap: PitchGap,
}

/// What is measured between a nut and a thread.
#[derive(Clone, Copy, Debug, PartialEq, Eq, Structural)]
pub struct ScrewMeasures {
    /// Distance of the nut's centre from the thread's axis.
    pub axis_distance: Scalar,
    /// Largest half extent of the nut's envelope.
    pub half_extent: Scalar,
    /// The thread's axis point nearest the nut.
    pub on_axis: Triple,
}

/// What is measured between two parts, by how they would couple.
#[derive(Clone, Copy, Debug, PartialEq, Eq, Structural)]
pub enum MeshMeasures {
    Gears(GearMeasures),
    Rack(RackMeasures),
    Worm(WormMeasures),
    Screw(ScrewMeasures),
    /// The parts would not couple.
    Nothing,
}

/// Why two pitch surfaces do not meet, if they do not.
pub open spec fn tangent_fault(gap: PitchGap) -> Option<GearLinkError> {
    if gap.widest.below(gap.meters) || gap.meters.below(gap.deepest) {
        Some(GearLinkError::NotTangent { gap_millimeters: gap.millimeters })
    } else {
        None
    }
}

/// Why two gears do not mesh, if they do not: their modules, their cuts, their
/// axes, their rings, their faces, then their pitch circles.
pub open spec fn gears_fault(
    first_module: u8,
    first_cut: ToothCut,
    first_radius: Scalar,
    second_module: u8,
    second_cut: ToothCut,
    second_radius: Scalar,
    measures: GearMeasures,
) -> Option<GearLinkError> {
    let parallel = Scalar { bits: GEAR_PARALLEL_COSINE };
    let perpendicular = Scalar { bits: GEAR_PERPENDICULAR_COSINE };
    if first_module != second_module {
        Some(GearLinkError::ModuleMismatch)
    } else if first_cut is Bevel && second_cut is Bevel {
        if measures.axis_sine.below(perpendicular) || measures.cone_gap.widest.below(
            measures.axis_miss,
        ) {
            Some(GearLinkError::AxesDoNotMeet)
        } else {
            tangent_fault(measures.cone_gap)
        }
    } else if first_cut is Bevel || second_cut is Bevel {
        Some(GearLinkError::BevelWithSpur)
    } else if measures.axis_cosine.below(parallel) {
        Some(GearLinkError::AxesNotParallel)
    } else if first_cut is Internal && second_cut is Internal {
        Some(GearLinkError::TwoRings)
    } else if measures.face_reach.at_most(measures.axial_offset) {
        Some(GearLinkError::NoFaceOverlap)
    } else if first_cut is Internal {
        if first_radius.at_most(second_radius) {
            Some(GearLinkError::LargerThanRing)
        } else {
            tangent_fault(measures.inner_gap)
        }
    } else if second_cut is Internal {
        if second_radius.at_most(first_radius) {
            Some(GearLinkError::LargerThanRing)
        } else {
            tangent_fault(measures.inner_gap)
        }
    } else {
        tangent_fault(measures.outer_gap)
    }
}

/// Why a gear does not mesh with a rack, if it does not.
pub open spec fn rack_fault(module: u8, cut: ToothCut, rack_module: u8, measures: RackMeasures) -> Option<
    GearLinkError,
> {
    let parallel = Scalar { bits: GEAR_PARALLEL_COSINE };
    if !(cut is Spur) {
        Some(GearLinkError::NeedsSpur)
    } else if module != rack_module {
        Some(GearLinkError::ModuleMismatch)
    } else if measures.axis_cosine.below(parallel) {
        Some(GearLinkError::AxisNotAcrossRack)
    } else if measures.half_along.below(measures.along_offset) {
        Some(GearLinkError::OffRack)
    } else if measures.across_reach.at_most(measures.across_offset) {
        Some(GearLinkError::NoFaceOverlap)
    } else {
        tangent_fault(measures.gap)
    }
}

/// Whether a cylinder has a thread on its outer wall.
pub open spec fn threaded(pitch_radius: Scalar, advance: Scalar) -> bool {
    !pitch_radius.at_most(Scalar { bits: 0 }) && !advance.same_value(Scalar { bits: 0 })
}

/// Why a wheel does not mesh with a worm, if it does not.
pub open spec fn worm_fault(
    cut: ToothCut,
    pitch_radius: Scalar,
    advance: Scalar,
    measures: WormMeasures,
) -> Option<GearLinkError> {
    let perpendicular = Scalar { bits: GEAR_PERPENDICULAR_COSINE };
    if !(cut is Spur) {
        Some(GearLinkError::NeedsSpur)
    } else if !threaded(pitch_radius, advance) {
        Some(GearLinkError::NeedsThread)
    } else if measures.pitch_tolerance.below(measures.pitch_error) {
        Some(GearLinkError::PitchMismatch)
    } else if perpendicular.below(measures.axis_cosine) {
        Some(GearLinkError::AxesNotPerpendicular)
    } else if measures.wheel_half.below(measures.along_wheel) || measures.worm_half.below(
        measures.along_worm,
    ) {
        Some(GearLinkError::NoFaceOverlap)
    } else {
        tangent_fault(measures.gap)
    }
}

/// Why a nut does not ride a thread, if it does not.
pub open spec fn screw_fault(pitch_radius: Scalar, advance: Scalar, measures: ScrewMeasures) -> Option<
    GearLinkError,
> {
    if !threaded(pitch_radius, advance) {
        Some(GearLinkError::NeedsThread)
    } else if measures.half_extent.below(measures.axis_distance) {
        Some(GearLinkError::NutOffAxis)
    } else {
        None
    }
}

/// A gear's side of a mesh.
pub open spec fn gear_side(cut: ToothCut, pitch_radius: Scalar, center: Triple, axis: Triple) -> GearMeshSide {
    GearMeshSide {
        center,
        axis,
        pitch_radius: if cut is Internal {
            pitch_radius.opposite()
        } else {
            pitch_radius
        },
    }
}

/// The mesh of a special side second, if its fault is none.
pub open spec fn meshed(fault: Option<GearLinkError>, mesh: GearMesh) -> Result<
    GearMesh,
    GearLinkError,
> {
    match fault {
        Some(error) => Err(error),
        None => Ok(mesh),
    }
}

/// The mesh of two parts, the special one second.
pub open spec fn mesh_in_order(
    first: GearEnd,
    second: GearEnd,
    measures: MeshMeasures,
    swapped: bool,
) -> Result<GearMesh, GearLinkError> {
    match (first, second, measures) {
        (
            GearEnd::Gear { module_ticks: module_a, cut: cut_a, pitch_radius: radius_a, center: center_a, axis: axis_a },
            GearEnd::Gear { module_ticks: module_b, cut: cut_b, pitch_radius: radius_b, center: center_b, axis: axis_b },
            MeshMeasures::Gears(measures),
        ) => meshed(
            gears_fault(module_a, cut_a, radius_a, module_b, cut_b, radius_b, measures),
            GearMesh {
                kind: GearLinkKind::Gears,
                first: gear_side(cut_a, radius_a, center_a, axis_a),
                second: gear_side(cut_b, radius_b, center_b, axis_b),
                advance: Scalar { bits: 0 },
                swapped,
            },
        ),
        (
            GearEnd::Gear { module_ticks, cut, pitch_radius, center, axis },
            GearEnd::Rack { module_ticks: rack_module, pitch_center, normal },
            MeshMeasures::Rack(measures),
        ) => meshed(
            rack_fault(module_ticks, cut, rack_module, measures),
            GearMesh {
                kind: GearLinkKind::Rack,
                first: GearMeshSide { center, axis, pitch_radius },
                second: GearMeshSide {
                    center: pitch_center,
                    axis: normal,
                    pitch_radius: Scalar { bits: 0 },
                },
                advance: Scalar { bits: 0 },
                swapped,
            },
        ),
        (
            GearEnd::Gear { cut, pitch_radius, axis, .. },
            GearEnd::Screw { axis: worm_axis, pitch_radius: worm_radius, advance, .. },
            MeshMeasures::Worm(measures),
        ) => meshed(
            worm_fault(cut, worm_radius, advance, measures),
            GearMesh {
                kind: GearLinkKind::Worm,
                first: GearMeshSide { center: measures.wheel_center, axis, pitch_radius },
                second: GearMeshSide {
                    center: measures.worm_center,
                    axis: worm_axis,
                    pitch_radius: Scalar { bits: 0 },
                },
                advance,
                swapped,
            },
        ),
        (
            GearEnd::Plain,
            GearEnd::Screw { center, axis, pitch_radius, advance },
            MeshMeasures::Screw(measures),
        ) => meshed(
            screw_fault(pitch_radius, advance, measures),
            GearMesh {
                kind: GearLinkKind::Screw,
                first: GearMeshSide {
                    center: measures.on_axis,
                    axis,
                    pitch_radius: Scalar { bits: 0 },
                },
                second: GearMeshSide { center, axis, pitch_radius: Scalar { bits: 0 } },
                advance,
                swapped,
            },
        ),
        _ => Err(GearLinkError::NeedsTeeth),
    }
}

/// Whether the first part is the special one of the pair.
pub open spec fn comes_swapped(first: GearEnd, second: GearEnd) -> bool {
    ||| first is Rack && second is Gear
    ||| first is Screw && second is Gear
    ||| first is Screw && second is Plain
}

/// The mesh that two parts admit, in either order.
pub open spec fn mesh_of(first: GearEnd, second: GearEnd, measures: MeshMeasures) -> Result<
    GearMesh,
    GearLinkError,
> {
    if first is Rack && second is Rack {
        Err(GearLinkError::TwoRacks)
    } else if first is Screw && second is Screw {
        Err(GearLinkError::TwoSpirals)
    } else if (first is Rack && second is Screw) || (first is Screw && second is Rack) {
        Err(GearLinkError::RackOnSpiral)
    } else if comes_swapped(first, second) {
        mesh_in_order(second, first, measures, true)
    } else {
        mesh_in_order(first, second, measures, false)
    }
}

/// Whether what was measured is what the pair needs.
pub open spec fn measured(first: GearEnd, second: GearEnd, measures: MeshMeasures) -> bool {
    &&& first is Gear && second is Gear ==> measures is Gears
    &&& (first is Gear && second is Rack) || (first is Rack && second is Gear) ==> measures is Rack
    &&& (first is Gear && second is Screw) || (first is Screw && second is Gear)
        ==> measures is Worm
    &&& (first is Plain && second is Screw) || (first is Screw && second is Plain)
        ==> measures is Screw
}

/// Checks that two pitch surfaces are close enough to mesh.
fn tangent(gap: PitchGap) -> (fault: Option<GearLinkError>)
    ensures
        fault == tangent_fault(gap),
{
    if gap.widest.less(gap.meters) || gap.meters.less(gap.deepest) {
        Some(GearLinkError::NotTangent { gap_millimeters: gap.millimeters })
    } else {
        None
    }
}

/// Decides whether two gears mesh.
fn gears(
    first_module: u8,
    first_cut: ToothCut,
    first_radius: Scalar,
    second_module: u8,
    second_cut: ToothCut,
    second_radius: Scalar,
    measures: GearMeasures,
) -> (fault: Option<GearLinkError>)
    ensures
        fault == gears_fault(
            first_module,
            first_cut,
            first_radius,
            second_module,
            second_cut,
            second_radius,
            measures,
        ),
{
    if first_module != second_module {
        return Some(GearLinkError::ModuleMismatch);
    }
    let first_bevel: bool = matches!(first_cut, ToothCut::Bevel);
    let second_bevel: bool = matches!(second_cut, ToothCut::Bevel);
    if first_bevel && second_bevel {
        if measures.axis_sine.less(Scalar::from_bits(GEAR_PERPENDICULAR_COSINE))
            || measures.cone_gap.widest.less(measures.axis_miss) {
            return Some(GearLinkError::AxesDoNotMeet);
        }
        return tangent(measures.cone_gap);
    }
    if first_bevel || second_bevel {
        return Some(GearLinkError::BevelWithSpur);
    }
    if measures.axis_cosine.less(Scalar::from_bits(GEAR_PARALLEL_COSINE)) {
        return Some(GearLinkError::AxesNotParallel);
    }
    let first_ring: bool = matches!(first_cut, ToothCut::Internal);
    let second_ring: bool = matches!(second_cut, ToothCut::Internal);
    if first_ring && second_ring {
        return Some(GearLinkError::TwoRings);
    }
    if measures.face_reach.less_or_equal(measures.axial_offset) {
        return Some(GearLinkError::NoFaceOverlap);
    }
    if first_ring || second_ring {
        let (ring, pinion) = if first_ring {
            (first_radius, second_radius)
        } else {
            (second_radius, first_radius)
        };
        if ring.less_or_equal(pinion) {
            return Some(GearLinkError::LargerThanRing);
        }
        return tangent(measures.inner_gap);
    }
    tangent(measures.outer_gap)
}

/// Decides whether a gear meshes with a rack.
fn rack(module: u8, cut: ToothCut, rack_module: u8, measures: RackMeasures) -> (fault: Option<
    GearLinkError,
>)
    ensures
        fault == rack_fault(module, cut, rack_module, measures),
{
    if !matches!(cut, ToothCut::Spur) {
        return Some(GearLinkError::NeedsSpur);
    }
    if module != rack_module {
        return Some(GearLinkError::ModuleMismatch);
    }
    if measures.axis_cosine.less(Scalar::from_bits(GEAR_PARALLEL_COSINE)) {
        return Some(GearLinkError::AxisNotAcrossRack);
    }
    if measures.half_along.less(measures.along_offset) {
        return Some(GearLinkError::OffRack);
    }
    if measures.across_reach.less_or_equal(measures.across_offset) {
        return Some(GearLinkError::NoFaceOverlap);
    }
    tangent(measures.gap)
}

/// Decides whether a wheel meshes with a worm.
fn worm(cut: ToothCut, pitch_radius: Scalar, advance: Scalar, measures: WormMeasures) -> (fault: Option<
    GearLinkError,
>)
    ensures
        fault == worm_fault(cut, pitch_radius, advance, measures),
{
    if !matches!(cut, ToothCut::Spur) {
        return Some(GearLinkError::NeedsSpur);
    }
    if pitch_radius.less_or_equal(Scalar::zero()) || advance.equal(Scalar::zero()) {
        return Some(GearLinkError::NeedsThread);
    }
    if measures.pitch_tolerance.less(measures.pitch_error) {
        return Some(GearLinkError::PitchMismatch);
    }
    if Scalar::from_bits(GEAR_PERPENDICULAR_COSINE).less(measures.axis_cosine) {
        return Some(GearLinkError::AxesNotPerpendicular);
    }
    if measures.wheel_half.less(measures.along_wheel) || measures.worm_half.less(
        measures.along_worm,
    ) {
        return Some(GearLinkError::NoFaceOverlap);
    }
    tangent(measures.gap)
}

/// Decides whether a nut rides a thread.
fn screw(pitch_radius: Scalar, advance: Scalar, measures: ScrewMeasures) -> (fault: Option<
    GearLinkError,
>)
    ensures
        fault == screw_fault(pitch_radius, advance, measures),
{
    if pitch_radius.less_or_equal(Scalar::zero()) || advance.equal(Scalar::zero()) {
        return Some(GearLinkError::NeedsThread);
    }
    if measures.half_extent.less(measures.axis_distance) {
        return Some(GearLinkError::NutOffAxis);
    }
    None
}

/// A gear's side of a mesh.
fn side_of_gear(cut: ToothCut, pitch_radius: Scalar, center: Triple, axis: Triple) -> (side:
    GearMeshSide)
    ensures
        side == gear_side(cut, pitch_radius, center, axis),
{
    let pitch_radius: Scalar = match cut {
        ToothCut::Internal => pitch_radius.negated(),
        _ => pitch_radius,
    };
    GearMeshSide { center, axis, pitch_radius }
}

/// The mesh, unless there is a fault.
fn unless(fault: Option<GearLinkError>, mesh: GearMesh) -> (outcome: Result<GearMesh, GearLinkError>)
    ensures
        outcome == meshed(fault, mesh),
{
    match fault {
        Some(error) => Err(error),
        None => Ok(mesh),
    }
}

/// Resolves the mesh of two parts, the special one second.
fn resolve(first: GearEnd, second: GearEnd, measures: MeshMeasures, swapped: bool) -> (mesh: Result<
    GearMesh,
    GearLinkError,
>)
    ensures
        mesh == mesh_in_order(first, second, measures, swapped),
{
    match (first, second, measures) {
        (
            GearEnd::Gear { module_ticks: module_a, cut: cut_a, pitch_radius: radius_a, center: center_a, axis: axis_a },
            GearEnd::Gear { module_ticks: module_b, cut: cut_b, pitch_radius: radius_b, center: center_b, axis: axis_b },
            MeshMeasures::Gears(measures),
        ) => unless(
            gears(module_a, cut_a, radius_a, module_b, cut_b, radius_b, measures),
            GearMesh {
                kind: GearLinkKind::Gears,
                first: side_of_gear(cut_a, radius_a, center_a, axis_a),
                second: side_of_gear(cut_b, radius_b, center_b, axis_b),
                advance: Scalar::zero(),
                swapped,
            },
        ),
        (
            GearEnd::Gear { module_ticks, cut, pitch_radius, center, axis },
            GearEnd::Rack { module_ticks: rack_module, pitch_center, normal },
            MeshMeasures::Rack(measures),
        ) => unless(
            rack(module_ticks, cut, rack_module, measures),
            GearMesh {
                kind: GearLinkKind::Rack,
                first: GearMeshSide { center, axis, pitch_radius },
                second: GearMeshSide {
                    center: pitch_center,
                    axis: normal,
                    pitch_radius: Scalar::zero(),
                },
                advance: Scalar::zero(),
                swapped,
            },
        ),
        (
            GearEnd::Gear { cut, pitch_radius, axis, .. },
            GearEnd::Screw { axis: worm_axis, pitch_radius: worm_radius, advance, .. },
            MeshMeasures::Worm(measures),
        ) => unless(
            worm(cut, worm_radius, advance, measures),
            GearMesh {
                kind: GearLinkKind::Worm,
                first: GearMeshSide { center: measures.wheel_center, axis, pitch_radius },
                second: GearMeshSide {
                    center: measures.worm_center,
                    axis: worm_axis,
                    pitch_radius: Scalar::zero(),
                },
                advance,
                swapped,
            },
        ),
        (
            GearEnd::Plain,
            GearEnd::Screw { center, axis, pitch_radius, advance },
            MeshMeasures::Screw(measures),
        ) => unless(
            screw(pitch_radius, advance, measures),
            GearMesh {
                kind: GearLinkKind::Screw,
                first: GearMeshSide {
                    center: measures.on_axis,
                    axis,
                    pitch_radius: Scalar::zero(),
                },
                second: GearMeshSide { center, axis, pitch_radius: Scalar::zero() },
                advance,
                swapped,
            },
        ),
        _ => Err(GearLinkError::NeedsTeeth),
    }
}

/// Resolves the mesh that two parts admit, in either order, or the first
/// reason why they do not mesh.
pub fn mesh(first: GearEnd, second: GearEnd, measures: MeshMeasures) -> (mesh: Result<
    GearMesh,
    GearLinkError,
>)
    requires
        measured(first, second, measures),
    ensures
        mesh == mesh_of(first, second, measures),
{
    match (first, second) {
        (GearEnd::Rack { .. }, GearEnd::Rack { .. }) => Err(GearLinkError::TwoRacks),
        (GearEnd::Screw { .. }, GearEnd::Screw { .. }) => Err(GearLinkError::TwoSpirals),
        (GearEnd::Rack { .. }, GearEnd::Screw { .. }) => Err(GearLinkError::RackOnSpiral),
        (GearEnd::Screw { .. }, GearEnd::Rack { .. }) => Err(GearLinkError::RackOnSpiral),
        (GearEnd::Rack { .. }, GearEnd::Gear { .. }) => resolve(second, first, measures, true),
        (GearEnd::Screw { .. }, GearEnd::Gear { .. }) => resolve(second, first, measures, true),
        (GearEnd::Screw { .. }, GearEnd::Plain) => resolve(second, first, measures, true),
        _ => resolve(first, second, measures, false),
    }
}

impl GearMesh {
    /// The sides of the caller's first end and of its second.
    pub open spec fn callers(self) -> (GearMeshSide, GearMeshSide) {
        if self.swapped {
            (self.second, self.first)
        } else {
            (self.first, self.second)
        }
    }

    /// The side of one end and of its partner, in that order.
    pub fn sides(self, of_first: bool) -> (sides: (GearMeshSide, GearMeshSide))
        ensures
            sides == (if of_first {
                self.callers()
            } else {
                (self.callers().1, self.callers().0)
            }),
    {
        if of_first != self.swapped {
            (self.first, self.second)
        } else {
            (self.second, self.first)
        }
    }

    /// Whether teeth of the two sides interleave: a worm or a nut does not
    /// phase its partner.
    pub fn interleaves(self) -> (interleaves: bool)
        ensures
            interleaves == (self.kind is Gears || self.kind is Rack),
    {
        match self.kind {
            GearLinkKind::Gears => true,
            GearLinkKind::Rack => true,
            _ => false,
        }
    }

    /// Whether turns of one side are turns of the other.
    pub fn turns_both(self) -> (turns: bool)
        ensures
            turns == (self.kind is Gears || self.kind is Worm),
    {
        match self.kind {
            GearLinkKind::Gears => true,
            GearLinkKind::Worm => true,
            _ => false,
        }
    }
}

/// Two parts mesh in either order or in neither, for the same reason, and each
/// keeps its side.
pub proof fn parts_mesh_in_either_order(first: GearEnd, second: GearEnd, measures: MeshMeasures)
    requires
        measured(first, second, measures),
    ensures
        mesh_of(first, second, measures) is Ok <==> mesh_of(second, first, measures) is Ok,
        mesh_of(first, second, measures) is Err ==> mesh_of(second, first, measures) == mesh_of(
            first,
            second,
            measures,
        ),
        mesh_of(first, second, measures) is Ok ==> {
            let one = mesh_of(first, second, measures)->Ok_0;
            let other = mesh_of(second, first, measures)->Ok_0;
            &&& one.kind == other.kind
            &&& one.advance == other.advance
            &&& one.callers().0 == other.callers().1
            &&& one.callers().1 == other.callers().0
        },
{
}

/// A thread passes its own advance on to what meshes with it, sign and all;
/// gears and racks advance nothing.
pub proof fn threads_pass_their_advance_on(first: GearEnd, second: GearEnd, measures: MeshMeasures)
    requires
        measured(first, second, measures),
        mesh_of(first, second, measures) is Ok,
    ensures
        ({
            let mesh = mesh_of(first, second, measures)->Ok_0;
            &&& first matches GearEnd::Screw { advance, .. } ==> mesh.advance == advance
            &&& second matches GearEnd::Screw { advance, .. } ==> mesh.advance == advance
            &&& !(first is Screw) && !(second is Screw) ==> mesh.advance.bits == 0
            &&& (mesh.kind is Worm || mesh.kind is Screw) <==> (first is Screw || second is Screw)
            &&& mesh.kind is Rack <==> first is Rack || second is Rack
            &&& mesh.kind is Screw <==> first is Plain || second is Plain
            &&& mesh.kind is Gears <==> first is Gear && second is Gear
        }),
{
}

/// Whether a side of a mesh stands where its end does: a gear by its pitch
/// circle, turned inside out for a ring, a rack by its pitch plane, a thread by
/// its axis. What meshes with a thread stands at the point of its own axis that
/// was measured.
pub open spec fn stands_for(side: GearMeshSide, end: GearEnd, kind: GearLinkKind) -> bool {
    match end {
        GearEnd::Gear { cut, pitch_radius, center, axis, .. } => {
            &&& side.axis == axis
            &&& !(kind is Worm) ==> side.center == center
            &&& cut is Internal ==> side.pitch_radius.negative() != pitch_radius.negative()
                && side.pitch_radius.magnitude() == pitch_radius.magnitude()
            &&& !(cut is Internal) ==> side.pitch_radius == pitch_radius
        },
        GearEnd::Rack { pitch_center, normal, .. } => {
            &&& side.center == pitch_center
            &&& side.axis == normal
            &&& side.pitch_radius.bits == 0
        },
        GearEnd::Screw { center, axis, .. } => {
            &&& side.axis == axis
            &&& !(kind is Worm) ==> side.center == center
            &&& side.pitch_radius.bits == 0
        },
        GearEnd::Plain => side.pitch_radius.bits == 0,
    }
}

/// Each end keeps its own side of a mesh, whichever way round the ends were
/// given, and a wheel and its worm stand at the points measured for them.
pub proof fn ends_keep_their_sides(first: GearEnd, second: GearEnd, measures: MeshMeasures)
    requires
        measured(first, second, measures),
        mesh_of(first, second, measures) is Ok,
    ensures
        ({
            let mesh = mesh_of(first, second, measures)->Ok_0;
            let sides = mesh.callers();
            &&& stands_for(sides.0, first, mesh.kind)
            &&& stands_for(sides.1, second, mesh.kind)
            &&& measures matches MeshMeasures::Worm(at) ==> {
                &&& first is Gear ==> sides.0.center == at.wheel_center && sides.1.center
                    == at.worm_center
                &&& second is Gear ==> sides.1.center == at.wheel_center && sides.0.center
                    == at.worm_center
            }
            &&& measures matches MeshMeasures::Screw(at) ==> {
                &&& first is Plain ==> sides.0.center == at.on_axis && sides.0.axis == sides.1.axis
                &&& second is Plain ==> sides.1.center == at.on_axis && sides.1.axis == sides.0.axis
            }
            &&& mesh.swapped ==> !(first is Gear) && !(first is Plain)
            &&& !mesh.swapped ==> first is Gear || first is Plain
        }),
{
}

/// Whether a gap lies within what still meshes.
pub open spec fn meets(gap: PitchGap) -> bool {
    gap.meters.units() <= gap.widest.units() && gap.deepest.units() <= gap.meters.units()
}

/// Whether every measure of a gap is finite.
pub open spec fn gap_finite(gap: PitchGap) -> bool {
    gap.meters.finite() && gap.widest.finite() && gap.deepest.finite()
}

/// What the cosines that tell axes apart are: 0.9998 and 0.02.
proof fn lemma_cosines()
    ensures
        rounds(GEAR_PARALLEL_COSINE, 9_998, 10_000),
        rounds(GEAR_PERPENDICULAR_COSINE, 2, 100),
        encodes(GEAR_MESH_GAP_MODULES, 1, 1),
        encodes(GEAR_MESH_OVERLAP_MODULES, 1, 2),
{
    lemma2_to64();
    lemma2_to64_rest();
    assert(0x3F7F_F2E5int / 0x80_0000 == 126 && 0x3F7F_F2E5int % 0x80_0000 == 0x7F_F2E5);
    lemma_encoded(GEAR_PARALLEL_COSINE, 9_998, 10_000, 24);
    assert(0x3CA3_D70Aint / 0x80_0000 == 121 && 0x3CA3_D70Aint % 0x80_0000 == 0x23_D70A);
    lemma_encoded(GEAR_PERPENDICULAR_COSINE, 2, 100, 29);
    assert(0x3F80_0000int / 0x80_0000 == 127 && 0x3F80_0000int % 0x80_0000 == 0);
    lemma_encoded(GEAR_MESH_GAP_MODULES, 1, 1, 23);
    assert(0x3F00_0000int / 0x80_0000 == 126 && 0x3F00_0000int % 0x80_0000 == 0);
    lemma_encoded(GEAR_MESH_OVERLAP_MODULES, 1, 2, 24);
}

/// A gap within bounds is accepted, one outside refused with its own size.
proof fn lemma_meets(gap: PitchGap)
    requires
        gap_finite(gap),
    ensures
        tangent_fault(gap) is None <==> meets(gap),
        tangent_fault(gap) is Some ==> tangent_fault(gap) == Some(
            GearLinkError::NotTangent { gap_millimeters: gap.millimeters },
        ),
{
    numbers_compare_as_their_values(gap.widest, gap.meters);
    numbers_compare_as_their_values(gap.meters, gap.deepest);
}

/// Whether everything measured between two gears is finite.
pub open spec fn gear_measures_finite(m: GearMeasures) -> bool {
    &&& m.axis_sine.finite() && m.axis_miss.finite() && m.axis_cosine.finite()
    &&& m.axial_offset.finite() && m.face_reach.finite()
    &&& gap_finite(m.cone_gap) && gap_finite(m.outer_gap) && gap_finite(m.inner_gap)
}

/// Two gears mesh exactly when their teeth are of one size and either both are
/// bevels on axes that cross and meet, with touching cones; or neither is, the
/// axes are parallel, the faces overlap, at most one of them is a ring and then
/// the larger, and the pitch circles touch, inside the ring or side by side.
pub proof fn gears_mesh_when_they_fit(
    first_module: u8,
    first_cut: ToothCut,
    first_radius: Scalar,
    second_module: u8,
    second_cut: ToothCut,
    second_radius: Scalar,
    m: GearMeasures,
)
    requires
        gear_measures_finite(m),
        first_radius.finite(),
        second_radius.finite(),
    ensures
        ({
            let fault = gears_fault(
                first_module,
                first_cut,
                first_radius,
                second_module,
                second_cut,
                second_radius,
                m,
            );
            let bevels = first_cut is Bevel && second_cut is Bevel;
            let straight = !(first_cut is Bevel) && !(second_cut is Bevel);
            let one_ring = first_cut is Internal != second_cut is Internal;
            let crossing = m.axis_sine.units() >= coded(GEAR_PERPENDICULAR_COSINE)
                && m.axis_miss.units() <= m.cone_gap.widest.units();
            let parallel = m.axis_cosine.units() >= coded(GEAR_PARALLEL_COSINE);
            let nested = (first_cut is Internal ==> first_radius.units() > second_radius.units())
                && (second_cut is Internal ==> second_radius.units() > first_radius.units());
            &&& fault is None <==> {
                &&& first_module == second_module
                &&& bevels ==> crossing && meets(m.cone_gap)
                &&& !bevels ==> straight && parallel && m.axial_offset.units()
                    < m.face_reach.units() && nested && (if one_ring {
                    meets(m.inner_gap)
                } else {
                    first_cut is Spur && meets(m.outer_gap)
                })
            }
            &&& fault == Some(GearLinkError::ModuleMismatch) <==> first_module != second_module
            &&& fault == Some(GearLinkError::BevelWithSpur) ==> first_cut is Bevel
                != second_cut is Bevel
            &&& fault == Some(GearLinkError::AxesDoNotMeet) ==> bevels && !crossing
            &&& fault == Some(GearLinkError::AxesNotParallel) ==> straight && !parallel
            &&& fault == Some(GearLinkError::TwoRings) ==> first_cut is Internal && second_cut
                is Internal
            &&& fault == Some(GearLinkError::NoFaceOverlap) ==> m.axial_offset.units()
                >= m.face_reach.units()
            &&& fault == Some(GearLinkError::LargerThanRing) ==> !nested
        }),
        rounds(GEAR_PARALLEL_COSINE, 9_998, 10_000),
        rounds(GEAR_PERPENDICULAR_COSINE, 2, 100),
{
    lemma_cosines();
    let parallel = Scalar { bits: GEAR_PARALLEL_COSINE };
    let perpendicular = Scalar { bits: GEAR_PERPENDICULAR_COSINE };
    numbers_compare_as_their_values(m.axis_sine, perpendicular);
    numbers_compare_as_their_values(m.cone_gap.widest, m.axis_miss);
    numbers_compare_as_their_values(m.axis_cosine, parallel);
    numbers_compare_as_their_values(m.face_reach, m.axial_offset);
    numbers_compare_as_their_values(first_radius, second_radius);
    numbers_compare_as_their_values(second_radius, first_radius);
    lemma_meets(m.cone_gap);
    lemma_meets(m.inner_gap);
    lemma_meets(m.outer_gap);
}

/// A gear meshes with a rack exactly when it is a spur of the same module whose
/// axis runs along the teeth, which stands over the rack, overlaps its face and
/// touches its pitch plane.
pub proof fn racks_mesh_when_they_fit(module: u8, cut: ToothCut, rack_module: u8, m: RackMeasures)
    requires
        m.axis_cosine.finite() && m.along_offset.finite() && m.half_along.finite(),
        m.across_offset.finite() && m.across_reach.finite() && gap_finite(m.gap),
    ensures
        rack_fault(module, cut, rack_module, m) is None <==> {
            &&& cut is Spur
            &&& module == rack_module
            &&& m.axis_cosine.units() >= coded(GEAR_PARALLEL_COSINE)
            &&& m.along_offset.units() <= m.half_along.units()
            &&& m.across_offset.units() < m.across_reach.units()
            &&& meets(m.gap)
        },
        rack_fault(module, cut, rack_module, m) matches Some(fault) ==> match fault {
            GearLinkError::NeedsSpur => !(cut is Spur),
            GearLinkError::ModuleMismatch => module != rack_module,
            GearLinkError::AxisNotAcrossRack => m.axis_cosine.units() < coded(GEAR_PARALLEL_COSINE),
            GearLinkError::OffRack => m.along_offset.units() > m.half_along.units(),
            GearLinkError::NoFaceOverlap => m.across_offset.units() >= m.across_reach.units(),
            GearLinkError::NotTangent { gap_millimeters } => !meets(m.gap) && gap_millimeters
                == m.gap.millimeters,
            _ => false,
        },
{
    lemma_cosines();
    numbers_compare_as_their_values(m.axis_cosine, Scalar { bits: GEAR_PARALLEL_COSINE });
    numbers_compare_as_their_values(m.half_along, m.along_offset);
    numbers_compare_as_their_values(m.across_reach, m.across_offset);
    lemma_meets(m.gap);
}

/// A wheel meshes with a worm exactly when it is a spur, the worm has a thread
/// whose pitch fits, the axes are perpendicular, the pitch point lies on both
/// faces and the pitch surfaces touch; a nut rides a thread that it surrounds.
pub proof fn threads_mesh_when_they_fit(
    cut: ToothCut,
    pitch_radius: Scalar,
    advance: Scalar,
    m: WormMeasures,
    nut: ScrewMeasures,
)
    requires
        pitch_radius.finite() && advance.finite(),
        m.pitch_error.finite() && m.pitch_tolerance.finite() && m.axis_cosine.finite(),
        m.along_wheel.finite() && m.wheel_half.finite(),
        m.along_worm.finite() && m.worm_half.finite() && gap_finite(m.gap),
        nut.axis_distance.finite() && nut.half_extent.finite(),
    ensures
        threaded(pitch_radius, advance) <==> 0 < pitch_radius.units() && advance.units() != 0,
        worm_fault(cut, pitch_radius, advance, m) is None <==> {
            &&& cut is Spur
            &&& threaded(pitch_radius, advance)
            &&& m.pitch_error.units() <= m.pitch_tolerance.units()
            &&& m.axis_cosine.units() <= coded(GEAR_PERPENDICULAR_COSINE)
            &&& m.along_wheel.units() <= m.wheel_half.units()
            &&& m.along_worm.units() <= m.worm_half.units()
            &&& meets(m.gap)
        },
        worm_fault(cut, pitch_radius, advance, m) matches Some(fault) ==> match fault {
            GearLinkError::NeedsSpur => !(cut is Spur),
            GearLinkError::NeedsThread => !threaded(pitch_radius, advance),
            GearLinkError::PitchMismatch => m.pitch_error.units() > m.pitch_tolerance.units(),
            GearLinkError::AxesNotPerpendicular => m.axis_cosine.units() > coded(
                GEAR_PERPENDICULAR_COSINE,
            ),
            GearLinkError::NoFaceOverlap => m.along_wheel.units() > m.wheel_half.units()
                || m.along_worm.units() > m.worm_half.units(),
            GearLinkError::NotTangent { gap_millimeters } => !meets(m.gap) && gap_millimeters
                == m.gap.millimeters,
            _ => false,
        },
        screw_fault(pitch_radius, advance, nut) is None <==> threaded(pitch_radius, advance)
            && nut.axis_distance.units() <= nut.half_extent.units(),
        screw_fault(pitch_radius, advance, nut) == Some(GearLinkError::NutOffAxis) ==> threaded(
            pitch_radius,
            advance,
        ),
{
    lemma_cosines();
    signs_are_those_of_values(Scalar::zero());
    numbers_compare_as_their_values(pitch_radius, Scalar::zero());
    numbers_compare_as_their_values(advance, Scalar::zero());
    numbers_compare_as_their_values(m.pitch_tolerance, m.pitch_error);
    numbers_compare_as_their_values(Scalar { bits: GEAR_PERPENDICULAR_COSINE }, m.axis_cosine);
    numbers_compare_as_their_values(m.wheel_half, m.along_wheel);
    numbers_compare_as_their_values(m.worm_half, m.along_worm);
    numbers_compare_as_their_values(nut.half_extent, nut.axis_distance);
    lemma_meets(m.gap);
}

/// Parts that cannot mesh whatever is measured: two racks, two threads, a rack
/// and a thread, and a part without teeth with anything but a thread.
pub proof fn some_parts_never_mesh(first: GearEnd, second: GearEnd, measures: MeshMeasures)
    requires
        measured(first, second, measures),
    ensures
        ({
            let outcome = mesh_of(first, second, measures);
            &&& first is Rack && second is Rack <==> outcome == Err::<GearMesh, GearLinkError>(
                GearLinkError::TwoRacks,
            )
            &&& first is Screw && second is Screw <==> outcome == Err::<GearMesh, GearLinkError>(
                GearLinkError::TwoSpirals,
            )
            &&& (first is Rack && second is Screw) || (first is Screw && second is Rack) <==> outcome
                == Err::<GearMesh, GearLinkError>(GearLinkError::RackOnSpiral)
            &&& first is Plain && !(second is Screw) ==> outcome == Err::<GearMesh, GearLinkError>(
                GearLinkError::NeedsTeeth,
            )
            &&& second is Plain && !(first is Screw) ==> outcome == Err::<GearMesh, GearLinkError>(
                GearLinkError::NeedsTeeth,
            )
        }),
{
}

/// Parts that could mesh do when nothing measured is at fault, and are refused
/// for that fault when something is.
pub proof fn meshes_are_refused_for_their_fault(
    first: GearEnd,
    second: GearEnd,
    measures: MeshMeasures,
)
    requires
        measured(first, second, measures),
    ensures
        ({
            let outcome = mesh_of(first, second, measures);
            let fault = match outcome {
                Ok(_) => None,
                Err(error) => Some(error),
            };
            &&& match (first, second, measures) {
                (
                    GearEnd::Gear { module_ticks: a, cut: c, pitch_radius: r, .. },
                    GearEnd::Gear { module_ticks: b, cut: d, pitch_radius: q, .. },
                    MeshMeasures::Gears(m),
                ) => fault == gears_fault(a, c, r, b, d, q, m),
                (
                    GearEnd::Gear { module_ticks: a, cut: c, .. },
                    GearEnd::Rack { module_ticks: b, .. },
                    MeshMeasures::Rack(m),
                ) => fault == rack_fault(a, c, b, m),
                (
                    GearEnd::Rack { module_ticks: b, .. },
                    GearEnd::Gear { module_ticks: a, cut: c, .. },
                    MeshMeasures::Rack(m),
                ) => fault == rack_fault(a, c, b, m),
                (
                    GearEnd::Gear { cut: c, .. },
                    GearEnd::Screw { pitch_radius: r, advance: s, .. },
                    MeshMeasures::Worm(m),
                ) => fault == worm_fault(c, r, s, m),
                (
                    GearEnd::Screw { pitch_radius: r, advance: s, .. },
                    GearEnd::Gear { cut: c, .. },
                    MeshMeasures::Worm(m),
                ) => fault == worm_fault(c, r, s, m),
                (
                    GearEnd::Plain,
                    GearEnd::Screw { pitch_radius: r, advance: s, .. },
                    MeshMeasures::Screw(m),
                ) => fault == screw_fault(r, s, m),
                (
                    GearEnd::Screw { pitch_radius: r, advance: s, .. },
                    GearEnd::Plain,
                    MeshMeasures::Screw(m),
                ) => fault == screw_fault(r, s, m),
                _ => fault is Some,
            }
        }),
{
}

} // verus!
