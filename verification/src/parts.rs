//! Editable parts and the connections between them.

use vstd::prelude::*;

use crate::appearance::MaterialAppearance;
use crate::drive::{DriveKey, DriveLimits, DriveProgram};
use crate::grid::{BuildPose, Sides};
use crate::ids::{BearingId, DriveLinkId, PartId, RegionId, ShapeFeatureId};
use crate::scalar::{Scalar, Triple};
use crate::exact::numbers_compare_as_their_values;

verus! {

/// Physical construction material.
#[derive(Clone, Copy, Debug, PartialEq, Eq, Hash, Structural)]
pub enum ConstructionMaterial {
    Steel,
    Aluminium,
    Rubber,
    Wood,
}

/// Engine family.
#[derive(Clone, Copy, Debug, PartialEq, Eq, PartialOrd, Ord, Hash, Structural)]
pub enum EngineKind {
    Electric,
    Gas,
}

/// Stable identity of a Dimension Link within its owning world.
#[derive(Clone, Copy, Debug, PartialEq, Eq, PartialOrd, Ord, Hash, Structural)]
pub struct DimensionLinkId(pub u64);

/// Outline of a physical input.
#[derive(Clone, Copy, Debug, PartialEq, Eq, Hash, Structural)]
pub enum InputSize {
    /// Mounted flush on a panel.
    Panel,
}

/// What a part is, apart from where it stands and what covers it.
#[derive(Clone, Copy, Debug, PartialEq, Eq, Structural)]
pub enum PartShape {
    /// Rectangular cuboid, sized in grid units.
    Cuboid { dimensions: Sides, material: ConstructionMaterial, appearance: MaterialAppearance },
    /// Solid or hollow cylinder whose axis is local Y.
    Cylinder {
        outer_diameter: Scalar,
        inner_diameter: Scalar,
        length_units: u8,
        sweep_degrees: u16,
        material: ConstructionMaterial,
        appearance: MaterialAppearance,
    },
    /// Cardinal quarter-torus pipe bend.
    PipeBend {
        outer_diameter: Scalar,
        inner_diameter: Scalar,
        span_blocks: u8,
        material: ConstructionMaterial,
        appearance: MaterialAppearance,
    },
    /// Cube fitting joining pipe ends on any of its faces.
    PipeJunction {
        outer_diameter: Scalar,
        inner_diameter: Scalar,
        arms: u8,
        material: ConstructionMaterial,
        appearance: MaterialAppearance,
    },
    /// Control block.
    Controller,
    /// Gas or electric engine.
    Engine { kind: EngineKind },
    /// Transmission that extends an engine line.
    Transmission,
    /// Servo.
    Servo,
    /// Seat cushion.
    Seat,
    /// Rotary physical input.
    Dial { size: InputSize },
    /// Push-button physical input.
    Button { size: InputSize },
    /// Keyboard Input block.
    Input,
    /// Dimension Link portal anchor.
    DimensionLink { id: DimensionLinkId },
}

impl PartShape {
    /// Whether two shapes agree in value.
    pub open spec fn same_value(self, other: Self) -> bool {
        match (self, other) {
            (
                PartShape::Cuboid { dimensions, material, appearance },
                PartShape::Cuboid { dimensions: sides, material: stuff, appearance: look },
            ) => dimensions == sides && material == stuff && appearance.same_value(look),
            (
                PartShape::Cylinder {
                    outer_diameter,
                    inner_diameter,
                    length_units,
                    sweep_degrees,
                    material,
                    appearance,
                },
                PartShape::Cylinder {
                    outer_diameter: outer,
                    inner_diameter: inner,
                    length_units: length,
                    sweep_degrees: sweep,
                    material: stuff,
                    appearance: look,
                },
            ) => {
                &&& outer_diameter.same_value(outer)
                &&& inner_diameter.same_value(inner)
                &&& length_units == length
                &&& sweep_degrees == sweep
                &&& material == stuff
                &&& appearance.same_value(look)
            },
            (
                PartShape::PipeBend {
                    outer_diameter,
                    inner_diameter,
                    span_blocks,
                    material,
                    appearance,
                },
                PartShape::PipeBend {
                    outer_diameter: outer,
                    inner_diameter: inner,
                    span_blocks: span,
                    material: stuff,
                    appearance: look,
                },
            ) => {
                &&& outer_diameter.same_value(outer)
                &&& inner_diameter.same_value(inner)
                &&& span_blocks == span
                &&& material == stuff
                &&& appearance.same_value(look)
            },
            (
                PartShape::PipeJunction {
                    outer_diameter,
                    inner_diameter,
                    arms,
                    material,
                    appearance,
                },
                PartShape::PipeJunction {
                    outer_diameter: outer,
                    inner_diameter: inner,
                    arms: openings,
                    material: stuff,
                    appearance: look,
                },
            ) => {
                &&& outer_diameter.same_value(outer)
                &&& inner_diameter.same_value(inner)
                &&& arms == openings
                &&& material == stuff
                &&& appearance.same_value(look)
            },
            _ => self == other,
        }
    }

    /// Whether two shapes agree in value.
    pub fn equal(self, other: Self) -> (equal: bool)
        ensures
            equal == self.same_value(other),
    {
        match (self, other) {
            (
                PartShape::Cuboid { dimensions, material, appearance },
                PartShape::Cuboid { dimensions: sides, material: stuff, appearance: look },
            ) => dimensions == sides && material == stuff && appearance.equal(look),
            (
                PartShape::Cylinder {
                    outer_diameter,
                    inner_diameter,
                    length_units,
                    sweep_degrees,
                    material,
                    appearance,
                },
                PartShape::Cylinder {
                    outer_diameter: outer,
                    inner_diameter: inner,
                    length_units: length,
                    sweep_degrees: sweep,
                    material: stuff,
                    appearance: look,
                },
            ) => outer_diameter.equal(outer) && inner_diameter.equal(inner) && length_units
                == length && sweep_degrees == sweep && material == stuff && appearance.equal(look),
            (
                PartShape::PipeBend {
                    outer_diameter,
                    inner_diameter,
                    span_blocks,
                    material,
                    appearance,
                },
                PartShape::PipeBend {
                    outer_diameter: outer,
                    inner_diameter: inner,
                    span_blocks: span,
                    material: stuff,
                    appearance: look,
                },
            ) => outer_diameter.equal(outer) && inner_diameter.equal(inner) && span_blocks == span
                && material == stuff && appearance.equal(look),
            (
                PartShape::PipeJunction {
                    outer_diameter,
                    inner_diameter,
                    arms,
                    material,
                    appearance,
                },
                PartShape::PipeJunction {
                    outer_diameter: outer,
                    inner_diameter: inner,
                    arms: openings,
                    material: stuff,
                    appearance: look,
                },
            ) => outer_diameter.equal(outer) && inner_diameter.equal(inner) && arms == openings
                && material == stuff && appearance.equal(look),
            _ => self == other,
        }
    }
}

/// One oriented face of a part.
#[derive(Clone, Copy, Debug, PartialEq, Eq, Hash, Structural)]
pub enum FaceKind {
    PositiveX,
    NegativeX,
    PositiveY,
    NegativeY,
    PositiveZ,
    NegativeZ,
}

/// Surface that a material layer covers.
#[derive(Clone, Copy, Debug, PartialEq, Eq, Hash, Structural)]
pub enum LayerFace {
    /// A flat face.
    Face(FaceKind),
    /// A cylinder's outer wall.
    OuterWall,
    /// A cylinder's bore.
    Bore,
}

/// One material layer over a part's core.
#[derive(Clone, Copy, Debug, PartialEq, Eq, Structural)]
pub struct MaterialLayer {
    /// Surface the layer was laid on.
    pub face: LayerFace,
    /// Thickness in metres.
    pub thickness: Scalar,
    /// Physical material.
    pub material: ConstructionMaterial,
    /// Color and finish treatment.
    pub appearance: MaterialAppearance,
}

impl MaterialLayer {
    /// Whether two layers agree in value.
    pub open spec fn same_value(self, other: Self) -> bool {
        &&& self.face == other.face
        &&& self.thickness.same_value(other.thickness)
        &&& self.material == other.material
        &&& self.appearance.same_value(other.appearance)
    }

    /// Whether two layers agree in value.
    pub fn equal(self, other: Self) -> (equal: bool)
        ensures
            equal == self.same_value(other),
    {
        self.face == other.face && self.thickness.equal(other.thickness) && self.material
            == other.material && self.appearance.equal(other.appearance)
    }
}

/// One editable part.
#[derive(Debug, PartialEq, Eq)]
pub struct PartSpec {
    /// What the part is.
    pub shape: PartShape,
    /// Where the part stands on its grid.
    pub pose: BuildPose,
    /// Material layers over the core, oldest first.
    pub layers: Vec<MaterialLayer>,
}

impl PartSpec {
    /// Whether two specs are the same part, down to the encoding of their numbers.
    pub open spec fn agrees(&self, other: &Self) -> bool {
        self.shape == other.shape && self.pose == other.pose && self.layers@ == other.layers@
    }

    /// Whether two specs agree in value.
    pub open spec fn same_value(&self, other: &Self) -> bool {
        &&& self.shape.same_value(other.shape)
        &&& self.pose == other.pose
        &&& self.layers@.len() == other.layers@.len()
        &&& forall|i: int|
            #![trigger self.layers@[i]]
            0 <= i < self.layers@.len() ==> self.layers@[i].same_value(other.layers@[i])
    }

    /// A part without layers.
    pub fn bare(shape: PartShape, pose: BuildPose) -> (spec: Self)
        ensures
            spec.shape == shape,
            spec.pose == pose,
            spec.layers@ == Seq::<MaterialLayer>::empty(),
    {
        PartSpec { shape, pose, layers: Vec::new() }
    }

    /// Whether two specs agree in value.
    pub fn same(&self, other: &Self) -> (same: bool)
        ensures
            same == self.same_value(other),
    {
        if !self.shape.equal(other.shape) || self.pose != other.pose || self.layers.len()
            != other.layers.len() {
            return false;
        }
        let mut i: usize = 0;
        while i < self.layers.len()
            invariant
                i <= self.layers@.len(),
                self.layers@.len() == other.layers@.len(),
                forall|k: int|
                    #![trigger self.layers@[k]]
                    0 <= k < i ==> self.layers@[k].same_value(other.layers@[k]),
            decreases self.layers@.len() - i,
        {
            if !self.layers[i].equal(other.layers[i]) {
                assert(!self.layers@[i as int].same_value(other.layers@[i as int]));
                return false;
            }
            i += 1;
        }
        true
    }

    /// A copy of this part.
    pub fn duplicate(&self) -> (copy: Self)
        ensures
            copy.agrees(self),
    {
        let mut layers: Vec<MaterialLayer> = Vec::new();
        let mut i: usize = 0;
        while i < self.layers.len()
            invariant
                i <= self.layers@.len(),
                layers@ =~= self.layers@.take(i as int),
            decreases self.layers@.len() - i,
        {
            layers.push(self.layers[i]);
            i += 1;
        }
        assert(layers@ =~= self.layers@);
        PartSpec { shape: self.shape, pose: self.pose, layers }
    }
}

/// Owner of a face: a part, or the static ground plane.
#[derive(Clone, Copy, Debug, PartialEq, Eq, Hash, Structural)]
pub enum FaceOwner {
    Part(PartId),
    Ground,
}

/// Provenance of a stable topology key.
#[derive(Clone, Copy, Debug, PartialEq, Eq, Hash, Structural)]
pub enum TopologySource {
    /// The owner's own generator.
    Base,
    /// An edge feature.
    Feature(ShapeFeatureId),
}

/// Stable identity of an evaluated edge or surface.
#[derive(Clone, Copy, Debug, PartialEq, Eq, Hash, Structural)]
pub struct TopologyKey {
    /// What generated it.
    pub source: TopologySource,
    /// Identity within that generator.
    pub local: u32,
}

/// Reference to one oriented face.
#[derive(Clone, Copy, Debug, PartialEq, Eq, Hash, Structural)]
pub struct FaceRef {
    /// Part or ground.
    pub owner: FaceOwner,
    /// Oriented face on that owner.
    pub face: FaceKind,
    /// Evaluated surface patch, for trimmed or generated surfaces.
    pub patch: Option<TopologyKey>,
}

/// Owner of a solid: a part or a shape region.
#[derive(Clone, Copy, Debug, PartialEq, Eq, Hash, Structural)]
pub enum SolidOwner {
    Part(PartId),
    Region(RegionId),
}

/// One logical edge chain.
#[derive(Clone, Copy, Debug, PartialEq, Eq, Hash, Structural)]
pub struct EdgeChainRef {
    /// Part or region carrying the chain.
    pub owner: SolidOwner,
    /// Stable logical edge key.
    pub edge: TopologyKey,
}

/// How an edge feature reshapes its chains.
#[derive(Clone, Copy, Debug, PartialEq, Eq, Hash, Structural)]
pub enum EdgeTreatment {
    Chamfer,
    Fillet,
}

/// One parametric edge feature.
#[derive(Debug, PartialEq, Eq)]
pub struct ShapeFeature {
    /// Logical chains treated together.
    pub targets: Vec<EdgeChainRef>,
    /// Chamfer or fillet.
    pub treatment: EdgeTreatment,
    /// Equal setback or radius in position ticks.
    pub amount_ticks: u32,
}

impl ShapeFeature {
    /// Whether two features are the same.
    pub open spec fn agrees(&self, other: &Self) -> bool {
        self.targets@ == other.targets@ && self.treatment == other.treatment && self.amount_ticks
            == other.amount_ticks
    }

    /// Whether two features are the same.
    pub fn same(&self, other: &Self) -> (same: bool)
        ensures
            same == self.agrees(other),
    {
        if self.treatment != other.treatment || self.amount_ticks != other.amount_ticks
            || self.targets.len() != other.targets.len() {
            return false;
        }
        let mut i: usize = 0;
        while i < self.targets.len()
            invariant
                i <= self.targets@.len(),
                self.targets@.len() == other.targets@.len(),
                self.targets@.take(i as int) =~= other.targets@.take(i as int),
            decreases self.targets@.len() - i,
        {
            if self.targets[i] != other.targets[i] {
                assert(self.targets@[i as int] != other.targets@[i as int]);
                return false;
            }
            i += 1;
        }
        assert(self.targets@.take(i as int) =~= self.targets@);
        assert(other.targets@.take(i as int) =~= other.targets@);
        true
    }
}

/// Weld between two faces.
#[derive(Clone, Copy, Debug, PartialEq, Eq, Structural)]
pub struct WeldSpec {
    pub first: FaceRef,
    pub second: FaceRef,
}

/// Rigid membership without touching faces.
#[derive(Clone, Copy, Debug, PartialEq, Eq, Structural)]
pub struct RigidLinkSpec {
    pub first: PartId,
    pub second: PartId,
}

/// How a piston's body is mounted.
#[derive(Clone, Copy, Debug, PartialEq, Eq, Structural)]
pub enum PistonMount {
    End,
    Side { mount_normal: Triple },
}

/// Hardware of a joint.
#[derive(Clone, Copy, Debug, PartialEq, Eq, Structural)]
pub enum JointHardware {
    Rotational,
    Suspension,
    Piston { blocks: u8, stages: u8, mount: PistonMount },
    Linear { width: Scalar, mount_normal: Triple, face: u8 },
}

/// Motion of a joint, apart from its drive.
#[derive(Clone, Copy, Debug, PartialEq, Eq, Structural)]
pub struct JointKind {
    /// Hardware of the joint.
    pub hardware: JointHardware,
    /// Whether the hardware carries a moving head of its own.
    pub owns_head: bool,
    /// Whether the joint slides rather than turns.
    pub translational: bool,
    /// Lower end of the physical travel.
    pub lower: Scalar,
    /// Upper end of the physical travel.
    pub upper: Scalar,
}

/// Joint between two faces.
#[derive(Clone, Copy, Debug, PartialEq, Eq, Structural)]
pub struct BearingSpec {
    /// Face whose outward normal establishes the axis.
    pub source: FaceRef,
    /// Face on the attached side; absent while a head carries nothing.
    pub target: Option<FaceRef>,
    /// Shared anchor in build space.
    pub shared_anchor: Triple,
    /// Unit axis in build space.
    pub axis: Triple,
    /// Motion of the joint.
    pub kind: JointKind,
    /// Visual outer diameter in metres.
    pub outer_diameter: Scalar,
    /// Visual inner diameter in metres.
    pub inner_diameter: Scalar,
}

/// Hardware that turns a driven joint.
#[derive(Clone, Copy, Debug, PartialEq, Eq, Structural)]
pub enum ActuatorAssignment {
    Unpowered,
    Motor { electric_percent: u8, gas_percent: u8 },
    Servo,
}

/// Travel, speed and force envelope of a sliding joint, in SI units.
#[derive(Clone, Copy, Debug, PartialEq, Eq, Structural)]
pub struct LinearDriveLimits {
    pub minimum: Scalar,
    pub maximum: Scalar,
    pub max_speed: Scalar,
    pub max_force: Scalar,
}

/// Wire from a control block to one joint.
#[derive(Debug, PartialEq, Eq)]
pub struct DriveLinkSpec {
    pub linear_limits: Option<LinearDriveLimits>,
    pub controller: PartId,
    pub bearing: BearingId,
    pub reversed: bool,
    pub actuator: ActuatorAssignment,
    pub limits: DriveLimits,
    pub program: DriveProgram,
    pub name: String,
}

/// Logical link from an Input block to a Seat.
#[derive(Clone, Copy, Debug, PartialEq, Eq, Structural)]
pub struct InputSeatLinkSpec {
    pub input: PartId,
    pub seat: PartId,
}

/// Logical link from a Seat to a Controller.
#[derive(Clone, Copy, Debug, PartialEq, Eq, Structural)]
pub struct SeatControllerLinkSpec {
    pub seat: PartId,
    pub controller: PartId,
}

/// Whether a button holds its key or flips it.
#[derive(Clone, Copy, Debug, PartialEq, Eq, Structural)]
pub enum ButtonMode {
    Momentary,
    Toggle,
}

/// Numeric setting of a driven joint.
#[derive(Clone, Copy, Debug, PartialEq, Eq, Structural)]
pub struct DriveParameter {
    pub field: u8,
}

/// Numeric setting of a gearbox.
#[derive(Clone, Copy, Debug, PartialEq, Eq, Structural)]
pub struct GearParameter {
    pub field: u8,
}

/// Numeric setting that a dial turns.
#[allow(inconsistent_fields)]
#[derive(Clone, Copy, Debug, PartialEq, Eq, Structural)]
pub enum NumericParameter {
    Drive { link: DriveLinkId, parameter: DriveParameter },
    Gear { controller: PartId, kind: EngineKind, parameter: GearParameter },
}

/// Endpoints of a dial in native units.
#[derive(Clone, Copy, Debug, PartialEq, Eq, Structural)]
pub struct AnalogRange {
    pub low: Scalar,
    pub high: Scalar,
    pub inverted: bool,
}

/// One setting that a dial turns.
#[derive(Clone, Copy, Debug, PartialEq, Eq, Structural)]
pub struct AnalogMapping {
    pub target: NumericParameter,
    pub range: AnalogRange,
}

/// Bindings of one physical input.
#[derive(Debug, PartialEq, Eq)]
pub struct InputConfiguration {
    /// Player-facing name.
    pub name: String,
    /// Controller that the input speaks to.
    pub controller: Option<PartId>,
    /// Momentary or toggle behaviour.
    pub button_mode: ButtonMode,
    /// Key that a button holds.
    pub key: Option<DriveKey>,
    /// Settings that a dial turns.
    pub analog: Vec<AnalogMapping>,
}

/// A joint ring placed on a face with nothing attached through it yet.
#[derive(Clone, Copy, Debug, PartialEq, Eq, Structural)]
pub struct BearingSocket {
    /// Motion of the joint.
    pub kind: JointKind,
    /// Travel axis in build space.
    pub axis: Triple,
    /// Face the ring sits on.
    pub source: FaceRef,
    /// Point the ring is centred on.
    pub anchor: Triple,
    /// Visual outer diameter in metres.
    pub outer_diameter: Scalar,
    /// Visual inner diameter in metres.
    pub inner_diameter: Scalar,
}

impl PartShape {
    /// Outer and inner diameter of what is round.
    pub open spec fn diameters(self) -> Option<(Scalar, Scalar)> {
        match self {
            PartShape::Cylinder { outer_diameter, inner_diameter, .. } => Some(
                (outer_diameter, inner_diameter),
            ),
            PartShape::PipeBend { outer_diameter, inner_diameter, .. } => Some(
                (outer_diameter, inner_diameter),
            ),
            PartShape::PipeJunction { outer_diameter, inner_diameter, .. } => Some(
                (outer_diameter, inner_diameter),
            ),
            _ => None,
        }
    }

    /// Material and look of what is not of a fixed make.
    pub open spec fn surface(self) -> Option<(ConstructionMaterial, MaterialAppearance)> {
        match self {
            PartShape::Cuboid { material, appearance, .. } => Some((material, appearance)),
            PartShape::Cylinder { material, appearance, .. } => Some((material, appearance)),
            PartShape::PipeBend { material, appearance, .. } => Some((material, appearance)),
            PartShape::PipeJunction { material, appearance, .. } => Some((material, appearance)),
            _ => None,
        }
    }

    /// What is counted of a shape: sides, length and sweep, span, or openings.
    pub open spec fn counts(self) -> (int, int, int) {
        match self {
            PartShape::Cuboid { dimensions, .. } => (
                dimensions.x as int,
                dimensions.y as int,
                dimensions.z as int,
            ),
            PartShape::Cylinder { length_units, sweep_degrees, .. } => (
                length_units as int,
                sweep_degrees as int,
                0,
            ),
            PartShape::PipeBend { span_blocks, .. } => (span_blocks as int, 0, 0),
            PartShape::PipeJunction { arms, .. } => (arms as int, 0, 0),
            _ => (0, 0, 0),
        }
    }
}

/// Whether two surfaces are of one material and look alike.
pub open spec fn surfaces_agree(
    a: (ConstructionMaterial, MaterialAppearance),
    b: (ConstructionMaterial, MaterialAppearance),
) -> bool {
    a.0 == b.0 && a.1.same_value(b.1)
}

/// Whether two pairs of diameters are of the same value.
pub open spec fn diameters_agree(a: (Scalar, Scalar), b: (Scalar, Scalar)) -> bool {
    a.0.units() == b.0.units() && a.1.units() == b.1.units()
}

/// Two shapes agree exactly when they are of one kind with the same counts,
/// diameters of the same value, one material, and looks that agree; parts of a
/// fixed make when they are the same.
pub proof fn shapes_agree_in_every_measure(a: PartShape, b: PartShape)
    requires
        a.diameters() matches Some(ends) ==> ends.0.finite() && ends.1.finite(),
        b.diameters() matches Some(ends) ==> ends.0.finite() && ends.1.finite(),
    ensures
        a.surface() is None || b.surface() is None ==> (a.same_value(b) <==> a == b),
        a.surface() is Some && b.surface() is Some ==> (a.same_value(b) <==> {
            &&& a is Cuboid <==> b is Cuboid
            &&& a is Cylinder <==> b is Cylinder
            &&& a is PipeBend <==> b is PipeBend
            &&& a.counts() == b.counts()
            &&& surfaces_agree(a.surface()->0, b.surface()->0)
            &&& a.diameters() is Some ==> diameters_agree(a.diameters()->0, b.diameters()->0)
        }),
{
    if a.diameters() is Some && b.diameters() is Some {
        let one = a.diameters()->0;
        let two = b.diameters()->0;
        numbers_compare_as_their_values(one.0, two.0);
        numbers_compare_as_their_values(one.1, two.1);
    }
}

/// Two parts agree exactly when their shapes do, they stand at one place, and
/// their layers agree one by one, each on the same face, of the same material
/// and thickness.
pub proof fn parts_agree_in_every_layer(a: &PartSpec, b: &PartSpec, i: int)
    requires
        a.same_value(b),
        0 <= i < a.layers@.len(),
        a.layers@[i].thickness.finite(),
        b.layers@[i].thickness.finite(),
    ensures
        a.pose == b.pose,
        a.shape.same_value(b.shape),
        a.layers@.len() == b.layers@.len(),
        a.layers@[i].face == b.layers@[i].face,
        a.layers@[i].material == b.layers@[i].material,
        a.layers@[i].appearance.same_value(b.layers@[i].appearance),
        a.layers@[i].thickness.units() == b.layers@[i].thickness.units(),
{
    assert(a.layers@[i].same_value(b.layers@[i]));
    numbers_compare_as_their_values(a.layers@[i].thickness, b.layers@[i].thickness);
}

} // verus!
