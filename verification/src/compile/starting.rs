//! Drive rows of a compiled construction.
//!
//! What the coordinates follow is read from the construction, so a running
//! simulation is retuned without compiling it again.

use vstd::prelude::*;

use super::actuation::claims_countable;
use super::assembly::CompiledCreation;
use super::drive_rows::{
    drivable, resolve_coordinate_drives, starting_drive, AccelerationCap, CoordinateDrive,
    DriveStrength,
};
use super::drives::{
    ActuatorSource, CoordinateActuation, GearSelection, PortCapacity, PortClaim,
};
use super::model::TopologyError;
use crate::graph::ConstructionGraph;
use crate::ids::BearingId;
use crate::scalar::Scalar;

verus! {

/// Whether a coordinate has no actuator.
pub open spec fn idle(row: CoordinateActuation) -> bool {
    row.source is Idle && !row.translational
}

impl CompiledCreation {
    /// The joint of each tree coordinate.
    pub open spec fn tree_bearings(&self) -> Seq<BearingId> {
        self.mechanism.topology.loop_topology.tree_bearings@
    }

    /// Whether the joint of every tree coordinate is one of `graph`.
    pub open spec fn joints_live(&self, graph: &ConstructionGraph) -> bool {
        forall|c: int|
            #![trigger self.tree_bearings()[c]]
            0 <= c < self.tree_bearings().len() ==> graph.bearings.rows@.dom().contains(
                self.tree_bearings()[c],
            )
    }

    /// Derives the drive row of every tree coordinate from the wires of a
    /// construction: the one that this was compiled from, or a retuned one.
    ///
    /// `inertias` says what each coordinate moves, `strengths` what its sources
    /// make of that, and `caps` what a sliding joint's force leaves.
    pub fn resolve_coordinate_drives(
        &self,
        graph: &ConstructionGraph,
        inertias: &Vec<Scalar>,
        strengths: &Vec<DriveStrength>,
        caps: &Vec<AccelerationCap>,
    ) -> (drives: Vec<CoordinateDrive>)
        requires
            graph.wf(),
            graph.programs_valid(),
            self.joints_live(graph),
            strengths@.len() == self.tree_bearings().len(),
            caps@.len() == self.tree_bearings().len(),
            forall|c: int|
                #![trigger strengths@[c]]
                0 <= c < strengths@.len() ==> drivable(
                    graph.target_of(self.tree_bearings(), inertias@, c),
                    strengths@[c],
                ),
        ensures
            drives@.len() == self.tree_bearings().len(),
            forall|c: int|
                #![trigger drives@[c]]
                0 <= c < drives@.len() ==> drives@[c] == starting_drive(
                    graph.target_of(self.tree_bearings(), inertias@, c),
                    strengths@[c],
                    caps@[c],
                ),
    {
        let tree_bearings: &Vec<BearingId> = &self.mechanism.topology.loop_topology.tree_bearings;
        assert forall|c: int| #![trigger tree_bearings@[c]]
            0 <= c < tree_bearings@.len() implies graph.bearings.rows@.dom().contains(
            tree_bearings@[c],
        ) by {
            assert(self.tree_bearings()[c] == tree_bearings@[c]);
        }
        let targets = graph.resolve_coordinate_targets(tree_bearings, inertias);
        assert forall|c: int| #![trigger targets@[c]] 0 <= c < targets@.len() implies drivable(
            targets@[c],
            strengths@[c],
        ) by {}
        resolve_coordinate_drives(&targets, strengths, caps)
    }

    /// Actuators of the tree coordinates while gears are engaged; where a module
    /// lacks a port, no coordinate has one.
    pub fn actuation_in_gear(
        &self,
        graph: &ConstructionGraph,
        claims: &Vec<PortClaim>,
        capacity: PortCapacity,
        gears: &Vec<GearSelection>,
    ) -> (rows: Vec<CoordinateActuation>)
        requires
            graph.wf(),
            self.mechanism.topology.loop_topology.bearing_coordinates.wf(),
            self.tree_bearings().len() <= u32::MAX,
            claims@.len() == graph.drive_links.rows.values@.len(),
            claims@.len() <= u32::MAX,
            claims_countable(claims@, capacity),
        ensures
            rows@.len() == self.tree_bearings().len(),
            graph.actuates(
                self.mechanism.topology.loop_topology,
                claims@,
                capacity,
                gears@,
                rows@,
            ) || (exists|fault: TopologyError| #[trigger]
                graph.exceeds_budget(
                    self.mechanism.topology.loop_topology.bearing_coordinates@,
                    claims@,
                    capacity,
                    fault,
                ) && forall|c: int| #![trigger rows@[c]] 0 <= c < rows@.len() ==> idle(rows@[c])),
    {
        let topology = &self.mechanism.topology.loop_topology;
        match graph.resolve_coordinate_actuation(topology, claims, capacity, gears) {
            Ok(rows) => rows,
            Err(fault) => {
                let mut rows: Vec<CoordinateActuation> = Vec::new();
                let mut c: usize = 0;
                while c < topology.tree_bearings.len()
                    invariant
                        c <= topology.tree_bearings@.len(),
                        rows@.len() == c,
                        forall|k: int| #![trigger rows@[k]] 0 <= k < c ==> idle(rows@[k]),
                    decreases topology.tree_bearings@.len() - c,
                {
                    rows.push(
                        CoordinateActuation { source: ActuatorSource::Idle, translational: false },
                    );
                    c += 1;
                }
                assert(graph.exceeds_budget(
                    topology.bearing_coordinates@,
                    claims@,
                    capacity,
                    fault,
                ));
                rows
            },
        }
    }
}

} // verus!
