//! The editable construction.

use vstd::prelude::*;

use crate::arena::{Arena, Handle};
use crate::frame::ConstructionFrames;
use crate::gearbox::GearboxConfig;
use crate::ids::{
    BearingId, DriveLinkId, InputSeatLinkId, PartId, RegionId, RigidLinkId, SeatControllerLinkId,
    ShapeFeatureId, WeldId,
};
use crate::ordered::{OrderedMap, Ranked};
use crate::parts::{
    BearingSpec, DriveLinkSpec, EngineKind, FaceOwner, InputConfiguration, InputSeatLinkSpec,
    PartShape, PartSpec, RigidLinkSpec, SeatControllerLinkSpec, ShapeFeature, WeldSpec,
};
use crate::region::{CageVertex, RegionError, ShapeRegion};

verus! {

/// One Controller's lane for one engine family.
#[derive(Clone, Copy, Debug, PartialEq, Eq, PartialOrd, Ord, Hash, Structural)]
pub struct GearLane {
    pub controller: PartId,
    pub kind: EngineKind,
}

impl Ranked for GearLane {
    open spec fn rank(self) -> int {
        self.controller.rank() * 2 + (if self.kind is Electric {
            0int
        } else {
            1int
        })
    }

    proof fn rank_identifies(a: Self, b: Self) {
        PartId::rank_identifies(a.controller, b.controller);
    }

    fn precedes(self, other: Self) -> (before: bool) {
        proof {
            if self.controller.rank() == other.controller.rank() {
                PartId::rank_identifies(self.controller, other.controller);
            }
        }
        if self.controller != other.controller {
            self.controller.precedes(other.controller)
        } else {
            match (self.kind, other.kind) {
                (EngineKind::Electric, EngineKind::Gas) => true,
                _ => false,
            }
        }
    }
}

/// Parts, connections, regions, features, inputs and grids of one construction.
#[derive(Debug)]
pub struct ConstructionGraph {
    pub parts: Arena<PartId, PartSpec>,
    pub welds: Arena<WeldId, WeldSpec>,
    pub rigid_links: Arena<RigidLinkId, RigidLinkSpec>,
    pub bearings: Arena<BearingId, BearingSpec>,
    pub drive_links: Arena<DriveLinkId, DriveLinkSpec>,
    pub input_seat_links: Arena<InputSeatLinkId, InputSeatLinkSpec>,
    pub seat_controller_links: Arena<SeatControllerLinkId, SeatControllerLinkSpec>,
    pub regions: Arena<RegionId, ShapeRegion>,
    pub shape_features: Arena<ShapeFeatureId, ShapeFeature>,
    /// The region that owns each part inside one.
    pub region_members: OrderedMap<PartId, RegionId>,
    /// The engine or transmission that each transmission extends.
    pub transmission_parents: OrderedMap<PartId, PartId>,
    /// The weld that holds each transmission to what it extends.
    pub transmission_welds: OrderedMap<PartId, WeldId>,
    /// Bindings of physical inputs.
    pub inputs: OrderedMap<PartId, InputConfiguration>,
    /// Settings of gear lanes.
    pub gearboxes: OrderedMap<GearLane, GearboxConfig>,
    /// Authored grids and their members.
    pub frames: ConstructionFrames,
}

impl ConstructionGraph {
    /// Collections keep their order.
    pub open spec fn wf(&self) -> bool {
        &&& self.parts.wf()
        &&& self.welds.wf()
        &&& self.rigid_links.wf()
        &&& self.bearings.wf()
        &&& self.drive_links.wf()
        &&& self.input_seat_links.wf()
        &&& self.seat_controller_links.wf()
        &&& self.regions.wf()
        &&& self.shape_features.wf()
        &&& self.region_members.wf()
        &&& self.transmission_parents.wf()
        &&& self.transmission_welds.wf()
        &&& self.inputs.wf()
        &&& self.gearboxes.wf()
        &&& self.frames.wf()
        &&& forall|id: RegionId| #[trigger]
            self.regions.rows@.dom().contains(id) ==> self.regions.rows@[id].wf()
    }

    /// Whether `part` is a live part.
    pub open spec fn has_part(&self, part: PartId) -> bool {
        self.parts.rows@.dom().contains(part)
    }

    /// Whether a face belongs to a live part or to the ground.
    pub open spec fn owner_live(&self, owner: FaceOwner) -> bool {
        match owner {
            FaceOwner::Part(part) => self.has_part(part),
            FaceOwner::Ground => true,
        }
    }

    /// A construction without rows.
    pub fn new() -> (graph: Self)
        ensures
            graph.wf(),
            graph.parts.rows.keys@.len() == 0,
            graph.welds.rows.keys@.len() == 0,
            graph.rigid_links.rows.keys@.len() == 0,
            graph.bearings.rows.keys@.len() == 0,
            graph.drive_links.rows.keys@.len() == 0,
            graph.input_seat_links.rows.keys@.len() == 0,
            graph.seat_controller_links.rows.keys@.len() == 0,
            graph.regions.rows.keys@.len() == 0,
            graph.shape_features.rows.keys@.len() == 0,
            graph.parts.ages@.len() == 0,
            graph.welds.ages@.len() == 0,
            graph.rigid_links.ages@.len() == 0,
            graph.bearings.ages@.len() == 0,
            graph.drive_links.ages@.len() == 0,
            graph.input_seat_links.ages@.len() == 0,
            graph.seat_controller_links.ages@.len() == 0,
            graph.regions.ages@.len() == 0,
            graph.shape_features.ages@.len() == 0,
            graph.parts.vacant@.len() == 0,
            graph.welds.vacant@.len() == 0,
            graph.rigid_links.vacant@.len() == 0,
            graph.bearings.vacant@.len() == 0,
            graph.drive_links.vacant@.len() == 0,
            graph.input_seat_links.vacant@.len() == 0,
            graph.seat_controller_links.vacant@.len() == 0,
            graph.regions.vacant@.len() == 0,
            graph.shape_features.vacant@.len() == 0,
            graph.region_members@ == Map::<PartId, RegionId>::empty(),
            graph.transmission_parents@ == Map::<PartId, PartId>::empty(),
            graph.transmission_welds@ == Map::<PartId, WeldId>::empty(),
            graph.inputs@ == Map::<PartId, InputConfiguration>::empty(),
            graph.gearboxes@ == Map::<GearLane, GearboxConfig>::empty(),
            graph.frames.is_default(),
            graph.regions_undivided(),
    {
        ConstructionGraph {
            parts: Arena::new(),
            welds: Arena::new(),
            rigid_links: Arena::new(),
            bearings: Arena::new(),
            drive_links: Arena::new(),
            input_seat_links: Arena::new(),
            seat_controller_links: Arena::new(),
            regions: Arena::new(),
            shape_features: Arena::new(),
            region_members: OrderedMap::new(),
            transmission_parents: OrderedMap::new(),
            transmission_welds: OrderedMap::new(),
            inputs: OrderedMap::new(),
            gearboxes: OrderedMap::new(),
            frames: ConstructionFrames::new(),
        }
    }

    /// The live part behind a handle.
    pub fn part(&self, part: PartId) -> (spec: Option<&PartSpec>)
        requires
            self.wf(),
        ensures
            spec is Some <==> self.has_part(part),
            spec is Some ==> *spec->0 == self.parts.rows@[part],
    {
        self.parts.get(part)
    }

    /// The region that owns a part.
    pub open spec fn region_owning(&self, part: PartId) -> Option<RegionId> {
        if self.region_members@.dom().contains(part) {
            Some(self.region_members@[part])
        } else {
            None
        }
    }

    /// The region that owns a part.
    pub fn region_of(&self, part: PartId) -> (region: Option<RegionId>)
        requires
            self.wf(),
        ensures
            region == self.region_owning(part),
    {
        match self.region_members.get(part) {
            Some(region) => Some(*region),
            None => None,
        }
    }

    /// Whether a handle is a live Controller's.
    pub open spec fn controller_live(&self, part: PartId) -> bool {
        self.has_part(part) && self.parts.rows@[part].shape is Controller
    }

    /// Whether a handle is a live Controller's.
    pub fn is_controller(&self, part: PartId) -> (controller: bool)
        requires
            self.wf(),
        ensures
            controller == self.controller_live(part),
    {
        match self.part(part) {
            Some(spec) => match spec.shape {
                PartShape::Controller => true,
                _ => false,
            },
            None => false,
        }
    }

    /// Displaces cage vertices of a region.
    pub fn set_region_vertices(&mut self, region: RegionId, vertices: Vec<CageVertex>) -> (done:
        Result<(), RegionError>)
        requires
            old(self).wf(),
        ensures
            final(self).wf(),
            !old(self).regions.rows@.dom().contains(region) ==> done == Err::<(), RegionError>(
                RegionError::MissingRegion,
            ),
            old(self).regions.rows@.dom().contains(region) ==> {
                let before = old(self).regions.rows@[region];
                let fault = before.first_fault(vertices@, vertices@.len() as int);
                &&& done == (match fault {
                    Some(error) => Err::<(), RegionError>(error),
                    None => Ok(()),
                })
                &&& done is Ok ==> final(self).regions.rows@ == old(self).regions.rows@.insert(
                    region,
                    (ShapeRegion { vertices, ..before }),
                )
            },
            done is Err ==> final(self).regions.rows@ == old(self).regions.rows@,
            *final(self) == (ConstructionGraph { regions: final(self).regions, ..*old(self) }),
    {
        let at: usize = match self.regions.rows.index_of(region) {
            Some(at) => at,
            None => {
                return Err(RegionError::MissingRegion);
            },
        };
        let ghost before = self.regions;
        proof {
            before.rows.lemma_index(at as int);
            assert(before.rows@.dom().contains(region));
        }
        let done = self.regions.rows.values[at].set_vertices(vertices);
        proof {
            let after = self.regions;
            assert(after.rows.keys@ == before.rows.keys@);
            assert forall|id: RegionId| #[trigger] before.rows@.dom().contains(id) && id != region implies after.rows@[id]
                == before.rows@[id] by {
                let i = before.rows.keys@.index_of(id);
                assert(before.rows.keys@[i] == id);
                assert(i != at);
            }
            assert(after.rows@[region] == after.rows.values@[at as int]);
            if done is Ok {
                assert(after.rows@ =~= before.rows@.insert(region, after.rows@[region]));
            } else {
                assert(after.rows@ =~= before.rows@);
            }
            assert forall|id: RegionId| #[trigger] after.rows@.dom().contains(id) implies after.rows@[id].wf() by {
                assert(before.rows@.dom().contains(id));
            }
        }
        done
    }
}

/// Lanes are ordered by their Controller, and of one Controller the electric lane
/// comes before the gas lane.
pub proof fn lanes_are_ordered_by_controller(a: GearLane, b: GearLane)
    ensures
        a.controller.rank() < b.controller.rank() ==> a.rank() < b.rank(),
        a.controller == b.controller && a.kind is Electric && b.kind is Gas ==> a.rank() < b.rank(),
{
}

/// A part's region is the one that the construction records for it, and a handle
/// is a Controller's when a live part of that shape stands behind it.
pub proof fn parts_know_their_region(graph: &ConstructionGraph, part: PartId, region: RegionId)
    ensures
        graph.region_owning(part) == Some(region) <==> graph.region_members@.contains_pair(
            part,
            region,
        ),
        graph.region_owning(part) is None <==> !graph.region_members@.dom().contains(part),
        graph.controller_live(part) <==> graph.parts.rows@.dom().contains(part)
            && graph.parts.rows@[part].shape is Controller,
{
}

} // verus!
