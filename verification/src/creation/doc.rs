//! Rows of a saved creation.

use vstd::prelude::*;

use crate::appearance::MaterialAppearance;
use crate::drive::{DriveLimitsError, DriveProgramError, DriveRelease, DriveTarget};
use crate::frame::{FrameError, Rotation};
use crate::gearbox::{GearKeyChord, GearboxError, ShiftMode};
use crate::grid::{BuildPose, GridRotation, GridVec};
use crate::parts::{
    ActuatorAssignment, AnalogRange, ButtonMode, ConstructionMaterial, DimensionLinkId,
    DriveParameter, EdgeTreatment, EngineKind, FaceKind, GearParameter, InputSize, JointKind,
    LayerFace, LinearDriveLimits,
};
use crate::region::{CageVertex, RegionError};
use crate::scalar::{Scalar, Triple};

verus! {

/// A cuboid side that is not a whole number of grid units.
#[derive(Clone, Copy, Debug, PartialEq, Eq, Structural)]
pub enum DimensionError {
    /// A side has no length.
    Zero,
}

/// A cylinder whose diameters, length or sweep are out of range.
#[derive(Clone, Copy, Debug, PartialEq, Eq, Structural)]
pub struct CylinderDimensionError;

/// A material layer that does not fit its part.
#[derive(Clone, Copy, Debug, PartialEq, Eq, Structural)]
pub struct LayerError;

/// A pipe bend whose diameters or span are out of range.
#[derive(Clone, Copy, Debug, PartialEq, Eq, Structural)]
pub struct PipeBendDimensionError;

/// A pipe junction whose cross-section or opening set is invalid.
#[derive(Clone, Copy, Debug, PartialEq, Eq, Structural)]
pub struct PipeJunctionError;

/// A joint ring whose diameters are out of range.
#[derive(Clone, Copy, Debug, PartialEq, Eq, Structural)]
pub struct BearingDimensionError;

/// A rail that its axis and mounting side give no rotation.
#[derive(Clone, Copy, Debug, PartialEq, Eq, Structural)]
pub struct LinearBearingError;

/// A binding that a physical input does not take.
#[derive(Clone, Copy, Debug, PartialEq, Eq, Structural)]
pub enum InputBindingError {
    /// The bound input or parameter is no target of the binding.
    InvalidTarget,
}

/// What a construction does not take.
#[derive(Clone, Copy, Debug, PartialEq, Eq, Structural)]
pub enum GraphError {
    /// A joint needs a part on each of its sides.
    BearingOnGround,
    /// The axis is no unit vector that fits the supporting face.
    InvalidBearingAxis,
    /// The anchor lies off the supporting face.
    BearingAnchorOutsideFaces,
    /// A Shape region is malformed.
    Region(RegionError),
    /// A gearbox is malformed.
    Gearbox(GearboxError),
    /// A physical input does not take its bindings.
    InputBinding(InputBindingError),
}

/// What measuring a part's row refuses it for.
#[derive(Clone, Copy, Debug, PartialEq, Eq, Structural)]
pub enum PartError {
    /// A cylinder dimension was out of range.
    CylinderDimension(CylinderDimensionError),
    /// A saved material layer does not fit its part.
    Layer(LayerError),
    /// A pipe-bend dimension was out of range.
    PipeBendDimension(PipeBendDimensionError),
    /// A pipe-junction cross-section or opening set was invalid.
    PipeJunction(PipeJunctionError),
}

/// What measuring a joint's row gave.
#[derive(Clone, Copy, Debug)]
pub struct JointCheck {
    /// Whether the ring's diameters are in range.
    pub dimensions: Result<(), BearingDimensionError>,
    /// Whether the axis is a unit vector that fits the supporting face.
    pub axis_fits: bool,
    /// Whether the anchor lies on the supporting face.
    pub anchor_fits: bool,
}

impl JointCheck {
    /// Whether nothing is refused.
    pub open spec fn passes(self) -> bool {
        self.dimensions is Ok && self.axis_fits && self.anchor_fits
    }
}

/// What measuring the row of a ring that nothing is attached through gave.
#[derive(Clone, Copy, Debug)]
pub struct RingCheck {
    /// Whether a rail has a rotation; read for rails alone.
    pub rail: Result<(), LinearBearingError>,
    /// What measuring the ring as a joint gave.
    pub joint: JointCheck,
}

/// Reason a creation file could not be turned back into a graph.
#[derive(Clone, Copy, Debug, PartialEq, Eq, Structural)]
pub enum CreationError {
    /// The file was written by a different format version.
    UnsupportedVersion(u32),
    /// Frame transform is not finite and rigid.
    Frame(FrameError),
    /// Membership must provide exactly one frame for each saved part.
    FrameMembershipCount,
    /// Membership must provide exactly one frame for each saved shape region.
    RegionFrameMembershipCount,
    /// A frame membership names a missing frame row.
    MissingFrame(u32),
    /// Transmission attachments share their parent's authored grid.
    TransmissionFrame(u32),
    /// A record referenced a part the file does not define.
    MissingPart(u32),
    /// A drive wire referenced a bearing the file does not define.
    MissingBearing(u32),
    /// A feature target referenced a Shape region the file does not define.
    MissingRegion(u32),
    /// A topology key referenced an earlier feature the file does not define.
    MissingShapeFeature(u32),
    /// An input setting referenced a drive wire the file does not define.
    MissingDriveLink(u32),
    /// Combining documents exceeded the on-disk 32-bit row index space.
    TooManyRows,
    /// A drive state was bound to something that is not a letter or a digit.
    InvalidDriveKey(char),
    /// A cuboid dimension was out of range.
    Dimension(DimensionError),
    /// A rail was malformed.
    LinearBearing(LinearBearingError),
    /// A cylinder dimension was out of range.
    CylinderDimension(CylinderDimensionError),
    /// A saved material layer does not fit its part.
    Layer(LayerError),
    /// A pipe-bend dimension was out of range.
    PipeBendDimension(PipeBendDimensionError),
    /// A pipe-junction cross-section or opening set was invalid.
    PipeJunction(PipeJunctionError),
    /// A bearing ring dimension was out of range.
    BearingDimension(BearingDimensionError),
    /// The rows do not describe a valid construction.
    Graph(GraphError),
    /// A drive program was malformed.
    DriveProgram(DriveProgramError),
    /// A drive envelope was out of range.
    DriveLimits(DriveLimitsError),
}

/// Grid-aligned pose in its serialized form.
#[derive(Clone, Copy, Debug, PartialEq, Eq)]
pub struct PoseDoc {
    /// Centre in exact integer position ticks.
    pub translation_ticks: [i32; 3],
    /// Quarter turns around local x, y, and z.
    pub rotation: [u8; 3],
}

/// The pose that a row describes.
pub open spec fn pose_of(doc: PoseDoc) -> BuildPose {
    BuildPose {
        translation_ticks: GridVec {
            x: doc.translation_ticks@[0],
            y: doc.translation_ticks@[1],
            z: doc.translation_ticks@[2],
        },
        rotation: GridRotation { x: doc.rotation@[0], y: doc.rotation@[1], z: doc.rotation@[2] },
    }
}

impl PoseDoc {
    /// The row that describes a pose.
    pub fn describe(pose: BuildPose) -> (doc: Self)
        ensures
            pose_of(doc) == pose,
    {
        PoseDoc {
            translation_ticks: pose.translation_ticks.to_array(),
            rotation: [pose.rotation.x, pose.rotation.y, pose.rotation.z],
        }
    }

    /// The pose that this row describes.
    pub fn pose(self) -> (pose: BuildPose)
        ensures
            pose == pose_of(self),
    {
        BuildPose {
            translation_ticks: GridVec::from_array(self.translation_ticks),
            rotation: GridRotation {
                x: self.rotation[0],
                y: self.rotation[1],
                z: self.rotation[2],
            },
        }
    }
}

/// One material layer in its serialized form.
#[derive(Clone, Copy, Debug, PartialEq, Eq, Structural)]
pub struct MaterialLayerDoc {
    /// Surface the layer was laid on.
    pub face: LayerFace,
    /// Thickness in metres.
    pub thickness: Scalar,
    /// Physical material.
    pub material: ConstructionMaterial,
    /// Color and finish treatment.
    pub appearance: MaterialAppearance,
}

/// One construction part in its serialized form.
#[allow(inconsistent_fields)]
#[derive(Debug, PartialEq, Eq)]
pub enum PartDoc {
    /// Rectangular cuboid, sized in quarter-metre grid units.
    Cuboid {
        /// Integer x/y/z core side lengths.
        dimensions: [u8; 3],
        /// Core centre and orientation.
        pose: PoseDoc,
        /// Core physical material.
        material: ConstructionMaterial,
        /// Core color and finish treatment.
        appearance: MaterialAppearance,
        /// Material layers replayed over the core, oldest first.
        layers: Vec<MaterialLayerDoc>,
    },
    /// Solid or hollow cylinder whose axis is local Y.
    Cylinder {
        /// Core outer diameter in metres.
        outer_diameter: Scalar,
        /// Core inner diameter in metres. Zero is solid.
        inner_diameter: Scalar,
        /// Core axial length in quarter-metre grid units.
        length_units: u8,
        /// Retained angular sector in degrees.
        sweep_degrees: u16,
        /// Core centre and orientation.
        pose: PoseDoc,
        /// Core physical material.
        material: ConstructionMaterial,
        /// Core color and finish treatment.
        appearance: MaterialAppearance,
        /// Material layers replayed over the core, oldest first.
        layers: Vec<MaterialLayerDoc>,
    },
    /// Cardinal 90-degree quarter-torus pipe bend.
    PipeBend {
        /// Outer diameter in metres.
        outer_diameter: Scalar,
        /// Inner diameter in metres. Zero is solid.
        inner_diameter: Scalar,
        /// Side of the bend's square footprint, in blocks.
        span_blocks: u8,
        /// Sharp-corner position and cardinal orientation.
        pose: PoseDoc,
        /// Physical material.
        material: ConstructionMaterial,
        /// Color and finish treatment.
        appearance: MaterialAppearance,
    },
    /// Cube fitting joining pipe ends on any of its faces.
    PipeJunction {
        /// Outer diameter of each pipe end in metres.
        outer_diameter: Scalar,
        /// Bore diameter in metres. Zero is solid.
        inner_diameter: Scalar,
        /// Open faces as bits ordered +X, -X, +Y, -Y, +Z, -Z.
        arms: u8,
        /// Cube centre and cardinal orientation.
        pose: PoseDoc,
        /// Physical material.
        material: ConstructionMaterial,
        /// Color and finish treatment.
        appearance: MaterialAppearance,
    },
    /// Fixed-size control block.
    Controller {
        /// Centre and orientation.
        pose: PoseDoc,
    },
    /// Fixed-size gas or electric engine.
    Engine {
        /// Authored engine family.
        kind: EngineKind,
        /// Centre and orientation.
        pose: PoseDoc,
    },
    /// Fixed-size transmission with a graph-owned upstream relation.
    Transmission {
        /// Index of the engine or transmission whose positive-Z output it extends.
        parent: u32,
        /// Centre and inherited root-engine orientation.
        pose: PoseDoc,
    },
    /// Fixed-size servo.
    Servo {
        /// Centre and orientation.
        pose: PoseDoc,
    },
    /// Fixed-size seat cushion.
    Seat {
        /// Centre and orientation.
        pose: PoseDoc,
    },
    /// Rotary physical input.
    Dial {
        /// Outline of the input.
        size: InputSize,
        /// Centre and orientation.
        pose: PoseDoc,
    },
    /// Push-button physical input.
    Button {
        /// Outline of the input.
        size: InputSize,
        /// Centre and orientation.
        pose: PoseDoc,
    },
    /// Fixed-size keyboard Input block.
    Input {
        /// Centre and orientation.
        pose: PoseDoc,
    },
    /// Fixed-size Dimension Link portal anchor.
    DimensionLink {
        /// Stable identity within its owning world and Garage.
        id: DimensionLinkId,
        /// Centre and orientation.
        pose: PoseDoc,
    },
}

/// One shape region in its serialized form.
#[derive(Debug, PartialEq, Eq)]
pub struct RegionDoc {
    /// Minimum corner in position ticks.
    pub origin_steps: [i32; 3],
    /// Extent in construction cells.
    pub size_cells: [i32; 3],
    /// Material every block in the region shares.
    pub material: ConstructionMaterial,
    /// Color and finish shared by every region member.
    pub appearance: MaterialAppearance,
    /// Cage planes along x beyond the two the extent implies, in cells.
    pub divisions_x: Vec<i32>,
    /// Cage planes along y.
    pub divisions_y: Vec<i32>,
    /// Cage planes along z.
    pub divisions_z: Vec<i32>,
    /// Displaced cage vertices.
    pub vertices: Vec<CageVertex>,
}

/// Owner of a serialized face: a part index, or the ground plane.
#[derive(Clone, Copy, Debug, PartialEq, Eq, Structural)]
pub enum FaceOwnerDoc {
    /// Index into the document's part list.
    Part(u32),
    /// The static ground plane.
    Ground,
}

/// Serialized provenance of a stable topology key.
#[derive(Clone, Copy, Debug, PartialEq, Eq, Structural)]
pub enum TopologySourceDoc {
    /// Base-generator topology.
    Base,
    /// Index of an earlier record in the ordered feature list.
    Feature(u32),
}

/// Serialized stable logical-curve key.
#[derive(Clone, Copy, Debug, PartialEq, Eq, Structural)]
pub struct TopologyKeyDoc {
    /// Base or generating-feature provenance.
    pub source: TopologySourceDoc,
    /// Deterministic identity within that provenance.
    pub local: u32,
}

/// Reference to one oriented face in its serialized form.
#[derive(Clone, Copy, Debug, PartialEq, Eq, Structural)]
pub struct FaceRefDoc {
    /// Part index or ground.
    pub owner: FaceOwnerDoc,
    /// Oriented face on that owner.
    pub face: FaceKind,
    /// Stable evaluated surface patch, when this connection uses trimmed or
    /// feature-generated geometry.
    pub patch: Option<TopologyKeyDoc>,
}

/// Serialized owner of a parametric feature target.
#[derive(Clone, Copy, Debug, PartialEq, Eq, Structural)]
pub enum SolidOwnerDoc {
    /// Index into the document's part list.
    Part(u32),
    /// Index into the document's Shape-region list.
    Region(u32),
}

/// One serialized feature target.
#[derive(Clone, Copy, Debug, PartialEq, Eq, Structural)]
pub struct EdgeChainRefDoc {
    /// Part or region carrying the chain.
    pub owner: SolidOwnerDoc,
    /// Stable logical edge key.
    pub edge: TopologyKeyDoc,
}

/// One record in explicit global feature order.
#[derive(Debug, PartialEq, Eq)]
pub struct ShapeFeatureDoc {
    /// Logical chains treated together.
    pub targets: Vec<EdgeChainRefDoc>,
    /// Chamfer or fillet.
    pub treatment: EdgeTreatment,
    /// Equal setback or radius in exact position ticks.
    pub amount_ticks: u32,
}

/// Weld between two touching faces.
#[derive(Clone, Copy, Debug, PartialEq, Eq, Structural)]
pub struct WeldDoc {
    /// First welded face.
    pub first: FaceRefDoc,
    /// Second welded face.
    pub second: FaceRefDoc,
}

/// Non-geometric rigid membership between two part indices.
#[derive(Clone, Copy, Debug, PartialEq, Eq, Structural)]
pub struct RigidLinkDoc {
    /// First part index.
    pub first: u32,
    /// Second part index.
    pub second: u32,
}

/// Joint in its serialized form.
#[derive(Clone, Copy, Debug, PartialEq, Eq, Structural)]
pub struct BearingDoc {
    /// Motion kind and complete hardware configuration.
    pub kind: JointKind,
    /// Face whose outward normal establishes the axis.
    pub source: FaceRefDoc,
    /// Compatible face on the attached side, when anything is attached.
    pub target: Option<FaceRefDoc>,
    /// Shared anchor in build space.
    pub anchor: Triple,
    /// Unit axis in build space.
    pub axis: Triple,
    /// Visual outer diameter in metres.
    pub outer_diameter: Scalar,
    /// Visual inner diameter in metres.
    pub inner_diameter: Scalar,
}

/// Unattached joint ring in its serialized form.
#[derive(Clone, Copy, Debug, PartialEq, Eq, Structural)]
pub struct BearingSocketDoc {
    /// Motion kind and complete hardware configuration.
    pub kind: JointKind,
    /// Travel axis in build space.
    pub axis: Triple,
    /// Face the ring sits on.
    pub source: FaceRefDoc,
    /// Point the ring is centred on.
    pub anchor: Triple,
    /// Visual outer diameter in metres.
    pub outer_diameter: Scalar,
    /// Visual inner diameter in metres.
    pub inner_diameter: Scalar,
}

/// Speed, torque, and travel envelope in its serialized form.
#[derive(Clone, Copy, Debug, PartialEq, Eq)]
pub struct DriveLimitsDoc {
    /// Fastest the bearing may turn, in radians per second.
    pub max_speed_rad_s: Scalar,
    /// Maximum applied torque in newton metres. `None` is unlimited, which is
    /// how the panel's `inf` reads on disk without encoding a float infinity.
    pub max_torque_newton_meters: Option<Scalar>,
    /// Travel limits in radians, when the bearing stops and holds at its ends.
    pub angle_limits: Option<(Scalar, Scalar)>,
}

/// Automatic handoff in its serialized form.
#[derive(Clone, Copy, Debug, PartialEq, Eq, Structural)]
pub struct DriveDwellDoc {
    /// How long the state stays active, in seconds.
    pub seconds: Scalar,
    /// Explicit handoff target, or `None` for the following state.
    pub next: Option<u8>,
}

/// Key binding in its serialized form.
#[derive(Clone, Copy, Debug, PartialEq, Eq, Structural)]
pub struct DriveTriggerDoc {
    /// Bound character, always an uppercase letter or a digit.
    pub key: char,
    /// What happens when the key is released.
    pub release: DriveRelease,
}

/// One drive state in its serialized form.
#[derive(Clone, Copy, Debug, PartialEq, Eq, Structural)]
pub struct DriveStateDoc {
    /// What this state asks of the bearing.
    pub target: DriveTarget,
    /// Automatic handoff, when this state advances on its own.
    pub dwell: Option<DriveDwellDoc>,
    /// Key binding, when this state can be triggered by hand.
    pub trigger: Option<DriveTriggerDoc>,
}

/// Ordered states of one driven bearing in their serialized form.
#[derive(Debug, PartialEq, Eq)]
pub struct DriveProgramDoc {
    /// Whether the last state hands back to the first.
    pub loops: bool,
    /// The states, in order.
    pub states: Vec<DriveStateDoc>,
}

/// Wire from a control block to one bearing, in its serialized form.
#[derive(Debug, PartialEq, Eq)]
pub struct DriveLinkDoc {
    /// Typed linear limits in SI units.
    pub linear_limits: Option<LinearDriveLimits>,
    /// Index of the control-block part this wire belongs to.
    pub controller: u32,
    /// Index of the bearing driven through this wire.
    pub bearing: u32,
    /// Whether this bearing runs opposite the programmed direction.
    pub reversed: bool,
    /// Hardware family assigned to this joint.
    pub actuator: ActuatorAssignment,
    /// Speed, torque, and travel envelope.
    pub limits: DriveLimitsDoc,
    /// Ordered states this bearing moves through.
    pub program: DriveProgramDoc,
    /// What the panel calls this joint.
    pub name: String,
}

/// Logical link from an Input block to a Seat.
#[derive(Clone, Copy, Debug, PartialEq, Eq, Structural)]
pub struct InputSeatLinkDoc {
    /// Index of the Input part.
    pub input: u32,
    /// Index of the Seat part.
    pub seat: u32,
}

/// Logical link from a Seat to a Controller.
#[derive(Clone, Copy, Debug, PartialEq, Eq, Structural)]
pub struct SeatControllerLinkDoc {
    /// Index of the Seat part.
    pub seat: u32,
    /// Index of the Controller part.
    pub controller: u32,
}

/// Persistent gearbox settings for one Controller and engine family.
#[derive(Debug, PartialEq, Eq)]
pub struct GearboxConfigDoc {
    /// Index of the Controller part owning this lane.
    pub controller: u32,
    /// Engine family being configured.
    pub kind: EngineKind,
    /// Automatic or manual shifting.
    pub mode: ShiftMode,
    /// Strictly descending input-to-output ratios.
    pub ratios: Vec<Scalar>,
    /// Number of leading gas ratios assigned to reverse.
    pub reverse_gears: u8,
    /// Manual upshift chord.
    pub gear_up: GearKeyChord,
    /// Manual downshift chord.
    pub gear_down: GearKeyChord,
}

/// Rigid transform of an authored local construction grid.
#[derive(Clone, Copy, Debug, PartialEq, Eq, Structural)]
pub struct ConstructionFrameDoc {
    /// Where the local grid's origin lies in build space, in metres.
    pub translation: Triple,
    /// Unit quaternion.
    pub rotation: Rotation,
}

/// Saved numeric reference, using document rows rather than arena handles.
#[allow(inconsistent_fields)]
#[derive(Clone, Copy, Debug, PartialEq, Eq, Structural)]
pub enum NumericParameterDoc {
    /// Driven joint setting.
    Drive {
        /// Dense drive-link row.
        link: u32,
        /// Typed numeric field.
        parameter: DriveParameter,
    },
    /// Controller gearbox setting.
    Gear {
        /// Dense controller part row.
        controller: u32,
        /// Engine family.
        kind: EngineKind,
        /// Typed numeric field.
        parameter: GearParameter,
    },
}

/// Saved dial mapping in native units.
#[derive(Clone, Copy, Debug, PartialEq, Eq, Structural)]
pub struct AnalogMappingDoc {
    /// Dense controller target.
    pub target: NumericParameterDoc,
    /// Native-unit endpoints and inversion.
    pub range: AnalogRange,
}

/// Persistent input configuration, excluding all transient feedback and values.
#[derive(Debug, PartialEq, Eq)]
pub struct InputConfigurationDoc {
    /// Dense physical-input part row.
    pub input: u32,
    /// Player-facing name.
    pub name: String,
    /// Dense controller part row, when connected.
    pub controller: Option<u32>,
    /// Momentary or toggle behavior.
    pub button_mode: ButtonMode,
    /// Optional ASCII controller key.
    pub key: Option<char>,
    /// Dial mappings.
    pub analog: Vec<AnalogMappingDoc>,
}

/// Serializable authored construction and its dense relationship rows.
#[derive(Debug, PartialEq, Eq)]
pub struct CreationDocument {
    /// Format version.
    pub version: u32,
    /// Display name, kept in the file so renaming a file does not rename the
    /// creation and vice versa.
    pub name: String,
    /// Parts, in the order every other record indexes them by.
    pub parts: Vec<PartDoc>,
    /// Rigid authored grids, indexed by the memberships.
    pub frames: Vec<ConstructionFrameDoc>,
    /// Exactly one dense frame index per saved part.
    pub part_frames: Vec<u32>,
    /// Exactly one dense frame index per saved shape region.
    pub region_frames: Vec<u32>,
    /// Welds between touching faces.
    pub welds: Vec<WeldDoc>,
    /// Non-geometric rigid memberships.
    pub rigid_links: Vec<RigidLinkDoc>,
    /// Bearings, in the order drive wires index them by.
    pub bearings: Vec<BearingDoc>,
    /// Control-block wires.
    pub drive_links: Vec<DriveLinkDoc>,
    /// Logical Input-to-Seat links.
    pub input_seat_links: Vec<InputSeatLinkDoc>,
    /// Logical Seat-to-Controller links.
    pub seat_controller_links: Vec<SeatControllerLinkDoc>,
    /// Per-controller, per-engine-family gearbox settings.
    pub gearbox_configs: Vec<GearboxConfigDoc>,
    /// Editable shape regions.
    pub regions: Vec<RegionDoc>,
    /// Parametric edge features in explicit replay order.
    pub shape_features: Vec<ShapeFeatureDoc>,
    /// Bearing rings placed but not yet attached through.
    pub sockets: Vec<BearingSocketDoc>,
}

/// Format version written by this build. Files carrying anything else are
/// refused.
pub const CREATION_FORMAT_VERSION: u32 = 17;

/// A pose comes back axis by axis: its three coordinates and its three turns, in
/// order.
pub proof fn poses_come_back_axis_by_axis(doc: PoseDoc)
    ensures
        pose_of(doc).translation_ticks.point() == (
            doc.translation_ticks@[0] as int,
            doc.translation_ticks@[1] as int,
            doc.translation_ticks@[2] as int,
        ),
        pose_of(doc).rotation.x == doc.rotation@[0] && pose_of(doc).rotation.y == doc.rotation@[1]
            && pose_of(doc).rotation.z == doc.rotation@[2],
{
}

} // verus!
