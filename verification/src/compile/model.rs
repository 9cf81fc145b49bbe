//! Rows of a compiled mechanism.

use vstd::prelude::*;

use crate::ids::{BearingId, PartId};
use crate::parts::EngineKind;

verus! {

/// Joint row connecting two distinct compiled compounds.
#[derive(Clone, Copy, Debug, PartialEq, Eq, Structural)]
pub struct CompiledBearing {
    /// Source editable bearing.
    pub source_bearing: BearingId,
    /// Source compound row.
    pub compound_a: u32,
    /// Target compound row.
    pub compound_b: u32,
    /// Independent mechanism coordinate for a tree edge; `None` for closure edges.
    pub coordinate_index: Option<u32>,
}

/// Canonical parent metadata for one body in the reduced-coordinate forest.
#[derive(Clone, Copy, Debug, PartialEq, Eq, Structural)]
pub struct MechanismBodyTopology {
    /// Parent body row, or this body for a root.
    pub parent_body: u32,
    /// Tree bearing connecting this body to its parent.
    pub tree_bearing: Option<BearingId>,
    /// Zero when the bearing is traversed from A to B, one for B to A.
    pub bearing_direction: u32,
    /// Canonical connected-component row.
    pub component_index: u32,
    /// Distance from the canonical tree root.
    pub depth: u32,
    /// Stable root-before-children traversal position.
    pub preorder_index: u32,
    /// Stable children-before-root traversal position.
    pub postorder_index: u32,
    /// Whether this body owns a fixed or floating root coordinate.
    pub is_root: bool,
}

/// How the solver drives one mechanism coordinate.
#[derive(Clone, Copy, Debug, PartialEq, Eq, Structural)]
pub enum DriveMode {
    /// No control block drives this coordinate; it swings freely.
    Passive,
    /// Hold a target speed.
    Speed,
    /// Seek and hold a target angle.
    Angle,
}

impl Default for DriveMode {
    /// Swinging freely.
    fn default() -> (mode: Self)
        ensures
            mode == DriveMode::Passive,
    {
        DriveMode::Passive
    }
}

impl DriveMode {
    /// Number that names the mode to the solver.
    pub fn code(self) -> (code: u32)
        ensures
            code == (match self {
                DriveMode::Passive => 0u32,
                DriveMode::Speed => 1u32,
                DriveMode::Angle => 2u32,
            }),
    {
        match self {
            DriveMode::Passive => 0,
            DriveMode::Speed => 1,
            DriveMode::Angle => 2,
        }
    }
}

/// Construction topology cannot be represented by the exact-coordinate model.
#[allow(inconsistent_fields)]
#[derive(Debug, PartialEq)]
pub enum TopologyError {
    /// Simulation requires at least one part.
    EmptyConstruction,
    /// A driven joint's ends were welded into the same compound, so the drive
    /// has no coordinate left to turn.
    SelfBearing {
        /// Offending joint.
        bearing: BearingId,
        /// Collapsed compound row.
        compound: u32,
    },
    /// A driven joint could not be given an independent coordinate.
    DrivenClosureBearing {
        /// Offending joint.
        bearing: BearingId,
    },
    /// A computed mass or inertia was non-finite or singular.
    InvalidMassProperties {
        /// One source part identifying the group.
        part: PartId,
    },
    /// A power module has more electric-driven joints than electric ports.
    InsufficientElectricPorts {
        /// A Controller identifying the module.
        controller: PartId,
        /// Number of assigned physical joints.
        required: u32,
        /// Number of available ports.
        available: u32,
    },
    /// A power module has more gas-driven joints than gas ports.
    InsufficientGasPorts {
        /// A Controller identifying the module.
        controller: PartId,
        /// Number of assigned physical joints.
        required: u32,
        /// Number of available ports.
        available: u32,
    },
    /// A creation needs more collider rows than the solver accepts.
    ColliderBudgetExceeded {
        /// Rows the decomposition produced.
        required: usize,
        /// Largest supported row count.
        available: usize,
    },
    /// A power module has more servo-driven joints than Servos.
    InsufficientServos {
        /// A Controller identifying the module.
        controller: PartId,
        /// Number of assigned physical joints.
        required: u32,
        /// Number of available Servos.
        available: u32,
    },
    /// A motor was given an angle state or a Servo was given a speed state.
    IncompatibleActuatorProgram {
        /// Joint carrying the incompatible program.
        bearing: BearingId,
    },
    /// Same-type engines in one Controller module have different transmission depths.
    TransmissionDepthMismatch {
        /// Controller identifying the module.
        controller: PartId,
        /// Engine family whose physical stacks disagree.
        kind: EngineKind,
        /// Depths found on the physical engines, ascending.
        depths: Vec<u8>,
    },
}

} // verus!
