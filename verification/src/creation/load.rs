//! Rebuilding the construction that a document describes.

use vstd::prelude::*;

use super::connect::{
    bearing_ids, bearings_of, feature_faults, feature_ids, feature_of_doc,
    first_fault, input_link_faults, input_links_of, joints_fault, lemma_first_fault, lemma_no_fault,
    load_bearings, load_features, load_input_links, load_rigid_links, load_seat_links,
    load_sockets, load_welds, load_wires, region_ids, rigid_faults, rigids_of, seat_link_faults,
    seat_links_of, socket_faults, sockets_of, the_earliest_fault_is_told, weld_faults, welds_of,
    welds_where, wire_faults, wire_of_doc,
};
use super::doc::{
    CreationDocument, CreationError, JointCheck, PartError, RingCheck, WeldDoc,
    CREATION_FORMAT_VERSION,
};
use super::lanes::{lane_faults, lanes_back, load_lanes};
use super::regions::{load_regions, region_faults, region_grids, region_of_doc};
use super::replay::{
    check_anchors, check_parts, first_part_fault, first_unanchored, lemma_all_anchored,
    lemma_faultless_part, lemma_plain_rows, order_parts, replay_order, upstream_first,
};
use super::rows::{parent_in, part_doc_fault, part_of_doc};
use super::spawn::{attach_welds, attachments, part_ids, plain_count, spawn_parts, upstream_map};
use crate::arena::Handle;
use crate::frame::{ConstructionFrame, ConstructionFrameId, ConstructionFrames, FrameError};
use crate::gearbox::GearboxConfig;
use crate::graph::{ConstructionGraph, GearLane};
use crate::ids::{BearingId, PartId, RegionId, ShapeFeatureId};
use crate::ordered::OrderedMap;
use crate::parts::BearingSocket;

verus! {

/// A creation back in memory.
#[derive(Debug)]
pub struct LoadedCreation {
    /// Display name.
    pub name: String,
    /// The construction.
    pub graph: ConstructionGraph,
    /// Joint rings that nothing is attached through.
    pub sockets: Vec<BearingSocket>,
}

/// What measuring a document's rows gave, row by row.
#[derive(Debug)]
pub struct LoadChecks {
    /// Each grid's transform, or why it is refused.
    pub frames: Vec<Result<ConstructionFrame, FrameError>>,
    /// Whether each part's dimensions and layers are in range.
    pub parts: Vec<Result<(), PartError>>,
    /// What measuring each joint gave.
    pub joints: Vec<JointCheck>,
    /// What measuring each ring gave.
    pub rings: Vec<RingCheck>,
}

impl LoadChecks {
    /// Whether there is one result for each row of a document.
    pub open spec fn covers(&self, document: &CreationDocument) -> bool {
        &&& self.frames@.len() == document.frames@.len()
        &&& self.parts@.len() == document.parts@.len()
        &&& self.joints@.len() == document.bearings@.len()
        &&& self.rings@.len() == document.sockets@.len()
    }

    /// Whether no row is refused.
    pub open spec fn passed(&self) -> bool {
        &&& forall|i: int|
            #![trigger self.frames@[i]]
            0 <= i < self.frames@.len() ==> self.frames@[i] is Ok
        &&& forall|i: int|
            #![trigger self.parts@[i]]
            0 <= i < self.parts@.len() ==> self.parts@[i] is Ok
        &&& forall|i: int|
            #![trigger self.joints@[i]]
            0 <= i < self.joints@.len() ==> self.joints@[i].passes()
        &&& forall|i: int|
            #![trigger self.rings@[i]]
            0 <= i < self.rings@.len() ==> self.rings@[i].rail is Ok
                && self.rings@[i].joint.passes()
    }
}

/// The first fault, or else the second.
pub open spec fn earlier(first: Option<CreationError>, second: Option<CreationError>) -> Option<
    CreationError,
> {
    match first {
        Some(error) => Some(error),
        None => second,
    }
}

/// Faults of grids.
pub open spec fn frame_faults(frames: Seq<Result<ConstructionFrame, FrameError>>) -> Seq<
    Option<CreationError>,
> {
    frames.map_values(
        |frame: Result<ConstructionFrame, FrameError>|
            match frame {
                Ok(_) => None,
                Err(error) => Some(CreationError::Frame(error)),
            },
    )
}

/// Faults of memberships.
pub open spec fn membership_faults(rows: Seq<u32>, frames: nat) -> Seq<Option<CreationError>> {
    rows.map_values(
        |row: u32|
            if row < frames {
                None
            } else {
                Some(CreationError::MissingFrame(row))
            },
    )
}

/// Grids without a fault.
pub open spec fn valid_frames(frames: Seq<Result<ConstructionFrame, FrameError>>) -> Seq<
    ConstructionFrame,
> {
    frames.map_values(|frame: Result<ConstructionFrame, FrameError>| frame->Ok_0)
}

/// Whether the first grid is the default one.
pub open spec fn starts_default(frames: Seq<ConstructionFrame>) -> bool {
    frames.len() > 0 && frames[0].same_value(ConstructionFrame::identity())
}

/// The identity that each grid gets: the default one's, or the next one.
pub open spec fn frame_ids(frames: Seq<ConstructionFrame>) -> Seq<ConstructionFrameId> {
    Seq::new(
        frames.len(),
        |i: int|
            if starts_default(frames) {
                ConstructionFrameId(i as u64)
            } else {
                ConstructionFrameId((i + 1) as u64)
            },
    )
}

/// Every grid of the construction, the default one first.
pub open spec fn frames_back(frames: Seq<ConstructionFrame>) -> Seq<ConstructionFrame> {
    seq![ConstructionFrame::identity()] + (if starts_default(frames) {
        frames.skip(1)
    } else {
        frames
    })
}

/// The grid of each part.
pub open spec fn part_grids(parts: Seq<PartId>, grids: Seq<ConstructionFrameId>) -> Map<
    PartId,
    ConstructionFrameId,
> {
    Map::new(|part: PartId| parts.contains(part), |part: PartId| grids[parts.index_of(part)])
}

/// The region of each part that one owns.
pub open spec fn part_owners(parts: Seq<PartId>, owners: Seq<Option<u32>>) -> Map<PartId, RegionId> {
    Map::new(
        |part: PartId| parts.contains(part) && owners[parts.index_of(part)] is Some,
        |part: PartId|
            RegionId { index: owners[parts.index_of(part)]->0, generation: 0 },
    )
}

/// The grids that memberships name.
pub open spec fn named_grids(rows: Seq<u32>, ids: Seq<ConstructionFrameId>) -> Seq<
    ConstructionFrameId,
> {
    rows.map_values(|row: u32| ids[row as int])
}

impl CreationDocument {
    /// Whether every row family fits the handles of a construction.
    pub open spec fn indexable(&self) -> bool {
        &&& self.parts@.len() + self.welds@.len() < u32::MAX
        &&& self.frames@.len() < u32::MAX
        &&& self.rigid_links@.len() < u32::MAX
        &&& self.bearings@.len() < u32::MAX
        &&& self.drive_links@.len() < u32::MAX
        &&& self.input_seat_links@.len() < u32::MAX
        &&& self.seat_controller_links@.len() < u32::MAX
        &&& self.regions@.len() < u32::MAX
        &&& self.shape_features@.len() < u32::MAX
    }

    /// Whether every row family fits the handles of a construction.
    pub fn is_indexable(&self) -> (fits: bool)
        ensures
            fits == self.indexable(),
    {
        let most: u128 = u32::MAX as u128;
        let connected: u128 = self.parts.len() as u128 + self.welds.len() as u128;
        connected < most && (self.frames.len() as u128) < most && (self.rigid_links.len() as u128)
            < most && (self.bearings.len() as u128) < most && (self.drive_links.len() as u128)
            < most && (self.input_seat_links.len() as u128) < most && (
        self.seat_controller_links.len() as u128) < most && (self.regions.len() as u128) < most && (
        self.shape_features.len() as u128) < most
    }

    /// Why the document as a whole is refused, if it is: its version, the
    /// number of memberships, its grids, then a membership.
    pub open spec fn header_fault(
        &self,
        frames: Seq<Result<ConstructionFrame, FrameError>>,
    ) -> Option<CreationError> {
        if self.version != CREATION_FORMAT_VERSION {
            Some(CreationError::UnsupportedVersion(self.version))
        } else if self.part_frames@.len() != self.parts@.len() {
            Some(CreationError::FrameMembershipCount)
        } else if self.region_frames@.len() != self.regions@.len() {
            Some(CreationError::RegionFrameMembershipCount)
        } else {
            earlier(
                first_fault(frame_faults(frames)),
                earlier(
                    first_fault(membership_faults(self.part_frames@, frames.len())),
                    first_fault(membership_faults(self.region_frames@, frames.len())),
                ),
            )
        }
    }

    /// Why parts are refused, if they are.
    pub open spec fn parts_fault(&self, checks: Seq<Result<(), PartError>>) -> Option<
        CreationError,
    > {
        earlier(
            first_part_fault(self.parts@, checks, self.part_frames@, self.parts@.len() as int),
            first_unanchored(self.parts@, self.parts@.len() as int),
        )
    }

    /// Why connections are refused, if they are: welds of plain faces, rigid
    /// links, regions, features, welds of trimmed or generated surfaces, then joints.
    pub open spec fn connections_fault(&self, checks: Seq<JointCheck>) -> Option<CreationError> {
        let parts = part_ids(self.parts@);
        let features = feature_ids(self.shape_features@.len());
        earlier(
            first_fault(
                weld_faults(
                    welds_where(self.welds@, false, self.welds@.len() as int),
                    parts,
                    Seq::<ShapeFeatureId>::empty(),
                ),
            ),
            earlier(
                first_fault(rigid_faults(self.rigid_links@, parts)),
                earlier(
                    first_fault(region_faults(self.regions@)),
                    earlier(
                        first_fault(
                            feature_faults(
                                self.shape_features@,
                                parts,
                                region_ids(self.regions@.len()),
                            ),
                        ),
                        earlier(
                            first_fault(
                                weld_faults(
                                    welds_where(self.welds@, true, self.welds@.len() as int),
                                    parts,
                                    features,
                                ),
                            ),
                            joints_fault(self.bearings@, checks, parts, features),
                        ),
                    ),
                ),
            ),
        )
    }

    /// Why controls are refused, if they are: wires, logical links, gear
    /// lanes, then rings.
    pub open spec fn controls_fault(&self, checks: Seq<RingCheck>) -> Option<CreationError> {
        let parts = part_ids(self.parts@);
        let features = feature_ids(self.shape_features@.len());
        earlier(
            first_fault(
                wire_faults(self.drive_links@, parts, bearing_ids(self.bearings@.len())),
            ),
            earlier(
                first_fault(input_link_faults(self.input_seat_links@, parts)),
                earlier(
                    first_fault(seat_link_faults(self.seat_controller_links@, parts)),
                    earlier(
                        first_fault(lane_faults(self.gearbox_configs@, parts)),
                        first_fault(socket_faults(self.sockets@, checks, parts, features)),
                    ),
                ),
            ),
        )
    }

    /// Why the document cannot be turned back into a construction, if it cannot.
    pub open spec fn load_fault(&self, checks: &LoadChecks) -> Option<CreationError> {
        earlier(
            self.header_fault(checks.frames@),
            earlier(
                self.parts_fault(checks.parts@),
                earlier(
                    self.connections_fault(checks.joints@),
                    self.controls_fault(checks.rings@),
                ),
            ),
        )
    }

    /// Whether grids and memberships are back.
    pub open spec fn frames_rebuilt(
        &self,
        frames: Seq<ConstructionFrame>,
        graph: &ConstructionGraph,
    ) -> bool {
        &&& graph.frames.frames.values@ == frames_back(frames)
        &&& graph.frames.frames.keys@.len() == frames_back(frames).len()
        &&& forall|i: int|
            #![trigger graph.frames.frames.keys@[i]]
            0 <= i < graph.frames.frames.keys@.len() ==> graph.frames.frames.keys@[i]
                == ConstructionFrameId(i as u64)
        &&& graph.frames.members@ == part_grids(
            part_ids(self.parts@),
            named_grids(self.part_frames@, frame_ids(frames)),
        )
        &&& graph.frames.region_frames@ == region_grids(
            named_grids(self.region_frames@, frame_ids(frames)),
            self.regions@.len() as int,
        )
        &&& graph.frames.editing_frame == ConstructionFrameId(0)
        &&& graph.frames.view_to_build == ConstructionFrame::identity()
        &&& graph.frames.origins@ == Map::<PartId, PartId>::empty()
    }

    /// Whether owners name regions on the grids of their parts.
    pub open spec fn owners_listed(&self, owners: Seq<Option<u32>>) -> bool {
        &&& owners.len() == self.parts@.len()
        &&& forall|i: int|
            #![trigger owners[i]]
            0 <= i < owners.len() && owners[i] is Some ==> {
                &&& owners[i]->0 < self.regions@.len()
                &&& self.part_frames@.len() == self.parts@.len() && self.region_frames@.len()
                    == self.regions@.len() ==> self.part_frames@[i]
                    == self.region_frames@[owners[i]->0 as int]
            }
    }

    /// Whether parts are back.
    pub open spec fn parts_rebuilt(&self, graph: &ConstructionGraph) -> bool {
        let ids = part_ids(self.parts@);
        &&& ids.no_duplicates()
        &&& graph.parts.gapless()
        &&& graph.parts.rows.keys@.len() == self.parts@.len()
        &&& forall|i: int|
            #![trigger ids[i]]
            0 <= i < self.parts@.len() ==> graph.has_part(ids[i])
        &&& forall|i: int|
            #![trigger ids[i]]
            0 <= i < self.parts@.len() ==> part_of_doc(self.parts@[i], graph.parts.rows@[ids[i]])
        &&& forall|i: int|
            #![trigger ids[i]]
            0 <= i < self.parts@.len() ==> (graph.transmission_parents@.dom().contains(ids[i])
                <==> parent_in(self.parts@[i]) is Some)
        &&& forall|i: int|
            #![trigger ids[i]]
            0 <= i < self.parts@.len() && parent_in(self.parts@[i]) is Some
                ==> graph.transmission_parents@[ids[i]] == ids[parent_in(self.parts@[i])->0 as int]
        &&& graph.transmission_parents@ == upstream_map(self.parts@, self.parts@.len() as int)
        &&& graph.transmission_welds@ == attachments(self.parts@, self.parts@.len() as int)
    }

    /// Whether connections are back.
    pub open spec fn connections_rebuilt(&self, graph: &ConstructionGraph) -> bool {
        let parts = part_ids(self.parts@);
        let features = feature_ids(self.shape_features@.len());
        let count = self.welds@.len() as int;
        &&& graph.welds.gapless()
        &&& graph.welds.rows.values@ == attach_welds(self.parts@, self.parts@.len() as int)
            + welds_of(
            welds_where(self.welds@, false, count),
            parts,
            Seq::<ShapeFeatureId>::empty(),
        ) + welds_of(welds_where(self.welds@, true, count), parts, features)
        &&& graph.rigid_links.gapless()
        &&& graph.rigid_links.rows.values@ == rigids_of(self.rigid_links@, parts)
        &&& graph.regions.gapless()
        &&& graph.regions.rows.values@.len() == self.regions@.len()
        &&& forall|i: int|
            #![trigger graph.regions.rows.values@[i]]
            0 <= i < self.regions@.len() ==> region_of_doc(
                self.regions@[i],
                graph.regions.rows.values@[i],
            )
        &&& graph.shape_features.gapless()
        &&& graph.shape_features.rows.values@.len() == self.shape_features@.len()
        &&& forall|i: int|
            #![trigger graph.shape_features.rows.values@[i]]
            0 <= i < self.shape_features@.len() ==> feature_of_doc(
                self.shape_features@,
                i,
                parts,
                region_ids(self.regions@.len()),
                graph.shape_features.rows.values@[i],
            )
        &&& graph.bearings.gapless()
        &&& graph.bearings.rows.values@ == bearings_of(self.bearings@, parts, features)
    }

    /// Whether controls are back.
    pub open spec fn controls_rebuilt(&self, graph: &ConstructionGraph) -> bool {
        let parts = part_ids(self.parts@);
        &&& graph.drive_links.gapless()
        &&& graph.drive_links.rows.values@.len() == self.drive_links@.len()
        &&& forall|i: int|
            #![trigger graph.drive_links.rows.values@[i]]
            0 <= i < self.drive_links@.len() ==> wire_of_doc(
                self.drive_links@[i],
                parts,
                bearing_ids(self.bearings@.len()),
                graph.drive_links.rows.values@[i],
            )
        &&& graph.input_seat_links.gapless()
        &&& graph.input_seat_links.rows.values@ == input_links_of(self.input_seat_links@, parts)
        &&& graph.seat_controller_links.gapless()
        &&& graph.seat_controller_links.rows.values@ == seat_links_of(
            self.seat_controller_links@,
            parts,
        )
        &&& lanes_back(
            graph.gearboxes@,
            self.gearbox_configs@,
            parts,
            self.gearbox_configs@.len() as int,
        )
        &&& graph.inputs@.dom() == Set::<PartId>::empty()
    }

    /// Whether a creation is what this document describes.
    pub open spec fn rebuilt(
        &self,
        frames: Seq<Result<ConstructionFrame, FrameError>>,
        owners: Seq<Option<u32>>,
        loaded: LoadedCreation,
    ) -> bool {
        &&& loaded.name == self.name
        &&& loaded.graph.region_members@ == part_owners(part_ids(self.parts@), owners)
        &&& loaded.graph.wf()
        &&& loaded.graph.regions_undivided()
        &&& self.frames_rebuilt(valid_frames(frames), &loaded.graph)
        &&& self.parts_rebuilt(&loaded.graph)
        &&& self.connections_rebuilt(&loaded.graph)
        &&& self.controls_rebuilt(&loaded.graph)
        &&& loaded.sockets@ == sockets_of(
            self.sockets@,
            part_ids(self.parts@),
            feature_ids(self.shape_features@.len()),
        )
    }

    /// Checks the document as a whole.
    fn check_header(&self, frames: &Vec<Result<ConstructionFrame, FrameError>>) -> (checked: Result<
        (),
        CreationError,
    >)
        ensures
            checked == (match self.header_fault(frames@) {
                Some(error) => Err::<(), CreationError>(error),
                None => Ok(()),
            }),
            checked is Ok ==> {
                &&& self.part_frames@.len() == self.parts@.len()
                &&& self.region_frames@.len() == self.regions@.len()
                &&& forall|i: int|
                    #![trigger frames@[i]]
                    0 <= i < frames@.len() ==> frames@[i] is Ok
                &&& forall|i: int|
                    #![trigger self.part_frames@[i]]
                    0 <= i < self.part_frames@.len() ==> self.part_frames@[i] < frames@.len()
                &&& forall|i: int|
                    #![trigger self.region_frames@[i]]
                    0 <= i < self.region_frames@.len() ==> self.region_frames@[i] < frames@.len()
            },
    {
        if self.version != CREATION_FORMAT_VERSION {
            return Err(CreationError::UnsupportedVersion(self.version));
        }
        if self.part_frames.len() != self.parts.len() {
            return Err(CreationError::FrameMembershipCount);
        }
        if self.region_frames.len() != self.regions.len() {
            return Err(CreationError::RegionFrameMembershipCount);
        }
        let ghost faults = frame_faults(frames@);
        let mut i: usize = 0;
        while i < frames.len()
            invariant
                i <= frames@.len(),
                faults == frame_faults(frames@),
                self.version == CREATION_FORMAT_VERSION,
                self.part_frames@.len() == self.parts@.len(),
                self.region_frames@.len() == self.regions@.len(),
                forall|k: int| #![trigger frames@[k]] 0 <= k < i ==> frames@[k] is Ok,
                forall|k: int| #![trigger faults[k]] 0 <= k < i ==> faults[k] is None,
            decreases frames@.len() - i,
        {
            match &frames[i] {
                Ok(_) => {},
                Err(error) => {
                    proof {
                        assert(faults[i as int] == Some(CreationError::Frame(*error)));
                        lemma_first_fault(faults, i as int);
                    }
                    return Err(CreationError::Frame(*error));
                },
            }
            i += 1;
        }
        proof {
            lemma_no_fault(faults);
        }
        match check_memberships(&self.part_frames, frames.len()) {
            Ok(()) => {},
            Err(error) => {
                return Err(error);
            },
        }
        check_memberships(&self.region_frames, frames.len())
    }
}

/// Checks that memberships name grids.
fn check_memberships(rows: &Vec<u32>, frames: usize) -> (checked: Result<(), CreationError>)
    ensures
        checked == (match first_fault(membership_faults(rows@, frames as nat)) {
            Some(error) => Err::<(), CreationError>(error),
            None => Ok(()),
        }),
        checked is Ok ==> forall|i: int|
            #![trigger rows@[i]]
            0 <= i < rows@.len() ==> rows@[i] < frames,
{
    let ghost faults = membership_faults(rows@, frames as nat);
    let mut i: usize = 0;
    while i < rows.len()
        invariant
            i <= rows@.len(),
            faults == membership_faults(rows@, frames as nat),
            forall|k: int| #![trigger rows@[k]] 0 <= k < i ==> rows@[k] < frames,
            forall|k: int| #![trigger faults[k]] 0 <= k < i ==> faults[k] is None,
        decreases rows@.len() - i,
    {
        if rows[i] as usize >= frames {
            proof {
                assert(faults[i as int] == Some(CreationError::MissingFrame(rows@[i as int])));
                lemma_first_fault(faults, i as int);
            }
            return Err(CreationError::MissingFrame(rows[i]));
        }
        i += 1;
    }
    proof {
        lemma_no_fault(faults);
    }
    Ok(())
}

/// The grids that are back once `count` grids are.
spec fn placed_frames(frames: Seq<ConstructionFrame>, count: int) -> Seq<ConstructionFrame> {
    if count == 0 {
        seq![ConstructionFrame::identity()]
    } else {
        seq![ConstructionFrame::identity()] + (if starts_default(frames) {
            frames.subrange(1, count)
        } else {
            frames.take(count)
        })
    }
}

/// Whether the first `count` grids, and no others, are back.
spec fn frames_placed(graph: &ConstructionGraph, frames: Seq<ConstructionFrame>, count: int) -> bool {
    let back = placed_frames(frames, count);
    &&& graph.frames.frames.values@ == back
    &&& graph.frames.frames.keys@.len() == back.len()
    &&& forall|i: int|
        #![trigger graph.frames.frames.keys@[i]]
        0 <= i < graph.frames.frames.keys@.len() ==> graph.frames.frames.keys@[i]
            == ConstructionFrameId(i as u64)
    &&& graph.frames.next_id == back.len()
}

/// Puts grids back.
fn place_frames(graph: &mut ConstructionGraph, frames: &Vec<Result<ConstructionFrame, FrameError>>) -> (
    ids: Vec<ConstructionFrameId>)
    requires
        old(graph).wf(),
        old(graph).frames.is_default(),
        frames@.len() < u32::MAX,
        forall|i: int| #![trigger frames@[i]] 0 <= i < frames@.len() ==> frames@[i] is Ok,
    ensures
        final(graph).wf(),
        ids@ == frame_ids(valid_frames(frames@)),
        final(graph).frames.frames.values@ == frames_back(valid_frames(frames@)),
        final(graph).frames.frames.keys@.len() == frames_back(valid_frames(frames@)).len(),
        forall|i: int|
            #![trigger final(graph).frames.frames.keys@[i]]
            0 <= i < final(graph).frames.frames.keys@.len() ==> final(graph).frames.frames.keys@[i]
                == ConstructionFrameId(i as u64),
        *final(graph) == (ConstructionGraph {
            frames: ConstructionFrames {
                frames: final(graph).frames.frames,
                next_id: final(graph).frames.next_id,
                ..old(graph).frames
            },
            ..*old(graph)
        }),
{
    let ghost before = *graph;
    let ghost valid = valid_frames(frames@);
    let mut ids: Vec<ConstructionFrameId> = Vec::new();
    let mut i: usize = 0;
    while i < frames.len()
        invariant
            i <= frames@.len() < u32::MAX,
            before == *old(graph),
            valid == valid_frames(frames@),
            graph.wf(),
            forall|i: int| #![trigger frames@[i]] 0 <= i < frames@.len() ==> frames@[i] is Ok,
            ids@ == frame_ids(valid).take(i as int),
            frames_placed(graph, valid, i as int),
            *graph == (ConstructionGraph {
                frames: ConstructionFrames {
                    frames: graph.frames.frames,
                    next_id: graph.frames.next_id,
                    ..before.frames
                },
                ..before
            }),
        decreases frames@.len() - i,
    {
        let frame: ConstructionFrame = match &frames[i] {
            Ok(frame) => *frame,
            Err(_) => {
                assert(false);
                return ids;
            },
        };
        assert(frame == valid[i as int]);
        let ghost held = *graph;
        let id: ConstructionFrameId = if i == 0 && frame.equal(ConstructionFrame::identity()) {
            assert(starts_default(valid));
            ConstructionFrameId(0)
        } else {
            match graph.add_construction_frame(frame) {
                Ok(id) => id,
                Err(_) => {
                    assert(false);
                    return ids;
                },
            }
        };
        ids.push(id);
        proof {
            if starts_default(valid) {
                if i > 0 {
                    assert(valid.subrange(1, i + 1) =~= valid.subrange(1, i as int).push(frame));
                } else {
                    assert(valid.subrange(1, 1) =~= Seq::<ConstructionFrame>::empty());
                }
            } else {
                assert(valid.take(i + 1) =~= valid.take(i as int).push(frame));
                assert(valid.take(0) =~= Seq::<ConstructionFrame>::empty());
            }
            assert forall|k: int| #![trigger graph.frames.frames.keys@[k]]
                0 <= k < graph.frames.frames.keys@.len() implies graph.frames.frames.keys@[k]
                == ConstructionFrameId(k as u64) by {
                if k < held.frames.frames.keys@.len() {
                    assert(graph.frames.frames.keys@[k] == held.frames.frames.keys@[k]);
                }
            }
            assert(graph.frames.frames.values@ =~= placed_frames(valid, i + 1));
            assert(frames_placed(graph, valid, i + 1));
            assert(ids@ =~= frame_ids(valid).take(i + 1));
        }
        i += 1;
    }
    proof {
        assert(frame_ids(valid).take(i as int) =~= frame_ids(valid));
        assert(graph.frames.frames.values@ =~= frames_back(valid));
    }
    ids
}

/// Parts that are back stand where their rows' handles say.
proof fn lemma_parts_rebuilt(document: &CreationDocument, graph: &ConstructionGraph)
    requires
        graph.wf(),
        document.parts@.len() < u32::MAX,
        graph.parts_back(document.parts@, document.parts@.len() as int),
        replay_order(document.parts@).no_duplicates(),
        replay_order(document.parts@).len() == document.parts@.len(),
        forall|row: u32| #[trigger]
            replay_order(document.parts@).contains(row) <==> row < document.parts@.len(),
        upstream_first(document.parts@, replay_order(document.parts@)),
    ensures
        document.parts_rebuilt(graph),
{
    let docs = document.parts@;
    let order = replay_order(docs);
    let ids = part_ids(docs);
    assert forall|i: int| #![trigger ids[i]] 0 <= i < docs.len() implies {
        &&& graph.has_part(ids[i])
        &&& part_of_doc(docs[i], graph.parts.rows@[ids[i]])
        &&& graph.transmission_parents@.dom().contains(ids[i]) <==> parent_in(docs[i]) is Some
        &&& parent_in(docs[i]) is Some ==> graph.transmission_parents@[ids[i]] == ids[parent_in(
            docs[i],
        )->0 as int]
        &&& 0 <= order.index_of(i as u32) < docs.len()
        &&& order[order.index_of(i as u32)] == i as u32
    } by {
        assert(order.contains(i as u32));
        let at = order.index_of(i as u32);
        assert(order[at] == i as u32);
        assert(graph.parts.rows.keys@[at].slot() == at);
        assert(graph.parts.rows.keys@[at] == ids[i]);
        graph.parts.rows.lemma_index(at);
        assert(part_of_doc(docs[order[at] as int], graph.parts.rows.values@[at]));
    }
    assert forall|i: int, j: int| 0 <= i < ids.len() && 0 <= j < ids.len() && i != j implies ids[i]
        != ids[j] by {
        let a = ids[i];
        let b = ids[j];
        assert(order[order.index_of(i as u32)] == i as u32);
        assert(order[order.index_of(j as u32)] == j as u32);
    }
}

impl CreationDocument {
    /// Puts parts back, each on its grid.
    fn load_parts(
        &self,
        graph: &mut ConstructionGraph,
        checks: &Vec<Result<(), PartError>>,
        frames: &Vec<ConstructionFrameId>,
    ) -> (loaded: Result<Vec<PartId>, CreationError>)
        requires
            self.indexable(),
            checks@.len() == self.parts@.len(),
            self.part_frames@.len() == self.parts@.len(),
            forall|i: int|
                #![trigger self.part_frames@[i]]
                0 <= i < self.part_frames@.len() ==> self.part_frames@[i] < frames@.len(),
            old(graph).wf(),
            old(graph).parts.gapless(),
            old(graph).parts.rows.keys@.len() == 0,
            old(graph).welds.gapless(),
            old(graph).welds.rows.keys@.len() == 0,
            old(graph).transmission_parents@ == Map::<PartId, PartId>::empty(),
            old(graph).transmission_welds@.dom() == Set::<PartId>::empty(),
            old(graph).region_members@ == Map::<PartId, RegionId>::empty(),
            old(graph).frames.members@ == Map::<PartId, ConstructionFrameId>::empty(),
            forall|i: int|
                #![trigger frames@[i]]
                0 <= i < frames@.len() ==> old(graph).frames.frames@.dom().contains(frames@[i]),
        ensures
            match self.parts_fault(checks@) {
                Some(error) => loaded == Err::<Vec<PartId>, CreationError>(error),
                None => {
                    &&& loaded is Ok
                    &&& loaded->Ok_0@ == part_ids(self.parts@)
                    &&& final(graph).wf()
                    &&& self.parts_rebuilt(final(graph))
                    &&& final(graph).welds.gapless()
                    &&& final(graph).welds.rows.values@ == attach_welds(
                        self.parts@,
                        self.parts@.len() as int,
                    )
                    &&& final(graph).frames.members@ == part_grids(
                        part_ids(self.parts@),
                        named_grids(self.part_frames@, frames@),
                    )
                    &&& *final(graph) == (ConstructionGraph {
                        parts: final(graph).parts,
                        welds: final(graph).welds,
                        transmission_parents: final(graph).transmission_parents,
                        transmission_welds: final(graph).transmission_welds,
                        frames: ConstructionFrames {
                            members: final(graph).frames.members,
                            ..old(graph).frames
                        },
                        ..*old(graph)
                    })
                },
            },
    {
        let ghost before = *graph;
        let ghost docs = self.parts@;
        match check_parts(&self.parts, checks, &self.part_frames) {
            Ok(()) => {},
            Err(error) => {
                return Err(error);
            },
        }
        let order: Vec<u32> = order_parts(&self.parts);
        match check_anchors(&self.parts, &order) {
            Ok(()) => {},
            Err(error) => {
                return Err(error);
            },
        }
        proof {
            assert forall|row: u32| #[trigger] order@.contains(row) <==> row < docs.len() by {
                if row < docs.len() {
                    lemma_all_anchored(docs, docs.len() as int, row as int);
                }
            }
            assert forall|i: int| #![trigger docs[i]]
                0 <= i < docs.len() && parent_in(docs[i]) is None implies part_doc_fault(
                docs[i],
                checks@[i],
            ) is None by {
                lemma_faultless_part(docs, checks@, self.part_frames@, docs.len() as int, i);
            }
            lemma_full_order(order@, docs.len() as int);
            assert(graph.transmission_parents@ =~= upstream_map(docs, 0));
            assert(graph.transmission_welds@ =~= attachments(docs, 0));
            assert(graph.welds.rows.values@ =~= attach_welds(docs, plain_count(docs)));
            assert(graph.parts_back(docs, 0));
        }
        let ids: Vec<PartId> = spawn_parts(graph, &self.parts, checks, &order);
        proof {
            lemma_parts_rebuilt(self, graph);
            assert(graph.frames == before.frames);
        }
        let ghost spawned = *graph;
        let ghost grids = named_grids(self.part_frames@, frames@);
        let mut i: usize = 0;
        proof {
            assert(graph.frames.members@ =~= part_grids(ids@.take(0), grids));
        }
        while i < ids.len()
            invariant
                i <= ids@.len(),
                ids@.len() == self.parts@.len(),
                ids@ == part_ids(self.parts@),
                spawned.region_members@ == Map::<PartId, RegionId>::empty(),
                self.part_frames@.len() == self.parts@.len(),
                before == *old(graph),
                grids == named_grids(self.part_frames@, frames@),
                graph.wf(),
                self.parts_rebuilt(&spawned),
                *graph == (ConstructionGraph {
                    frames: ConstructionFrames {
                        members: graph.frames.members,
                        ..spawned.frames
                    },
                    ..spawned
                }),
                forall|i: int|
                    #![trigger self.part_frames@[i]]
                    0 <= i < self.part_frames@.len() ==> self.part_frames@[i] < frames@.len(),
                forall|i: int|
                    #![trigger frames@[i]]
                    0 <= i < frames@.len() ==> spawned.frames.frames@.dom().contains(frames@[i]),
                graph.frames.members@ == part_grids(ids@.take(i as int), grids),
            decreases ids@.len() - i,
        {
            let part: PartId = ids[i];
            let frame: ConstructionFrameId = frames[self.part_frames[i] as usize];
            assert(spawned.has_part(part_ids(self.parts@)[i as int]));
            match graph.assign_part_frame(part, frame) {
                Ok(()) => {},
                Err(_) => {
                    assert(false);
                },
            }
            proof {
                let shorter = ids@.take(i as int);
                let longer = ids@.take(i + 1);
                assert(longer =~= shorter.push(part));
                assert(grids[i as int] == frame);
                lemma_one_more(ids@, i as int);
                assert(part_grids(shorter, grids).insert(part, frame) =~= part_grids(
                    longer,
                    grids,
                ));
            }
            i += 1;
        }
        proof {
            assert(ids@.take(i as int) =~= ids@);
        }
        Ok(ids)
    }
}

/// Distinct rows that are all rows are as many as there are.
pub proof fn lemma_full_order(order: Seq<u32>, count: int)
    requires
        order.no_duplicates(),
        0 <= count <= u32::MAX,
        forall|row: u32| #[trigger] order.contains(row) <==> row < count,
    ensures
        order.len() == count,
{
    let ints = order.map_values(|row: u32| row as int);
    assert(ints.no_duplicates());
    let range = vstd::set_lib::set_int_range(0, count);
    vstd::set_lib::lemma_int_range(0, count);
    ints.unique_seq_to_set();
    assert(ints.to_set() =~= range) by {
        assert forall|x: int| ints.to_set().contains(x) <==> range.contains(x) by {
            if ints.to_set().contains(x) {
                let i = ints.index_of(x);
                assert(ints[i] == x);
                assert(order.contains(order[i]));
            }
            if range.contains(x) {
                assert(order.contains(x as u32));
                let i = order.index_of(x as u32);
                assert(order[i] == x as u32);
                assert(ints[i] == x);
            }
        }
    }
}

/// The grids that memberships name.
fn name_grids(rows: &Vec<u32>, ids: &Vec<ConstructionFrameId>) -> (grids: Vec<ConstructionFrameId>)
    requires
        forall|i: int| #![trigger rows@[i]] 0 <= i < rows@.len() ==> rows@[i] < ids@.len(),
    ensures
        grids@ == named_grids(rows@, ids@),
{
    let mut grids: Vec<ConstructionFrameId> = Vec::new();
    let mut i: usize = 0;
    while i < rows.len()
        invariant
            i <= rows@.len(),
            forall|i: int| #![trigger rows@[i]] 0 <= i < rows@.len() ==> rows@[i] < ids@.len(),
            grids@ == named_grids(rows@.take(i as int), ids@),
        decreases rows@.len() - i,
    {
        grids.push(ids[rows[i] as usize]);
        assert(grids@ =~= named_grids(rows@.take(i + 1), ids@));
        i += 1;
    }
    assert(rows@.take(i as int) =~= rows@);
    grids
}

/// Records which region owns each part.
fn own_parts(
    members: &mut OrderedMap<PartId, RegionId>,
    parts: &Vec<PartId>,
    owners: &Vec<Option<u32>>,
)
    requires
        old(members).wf(),
        old(members)@ == Map::<PartId, RegionId>::empty(),
        parts@.no_duplicates(),
        owners@.len() == parts@.len(),
    ensures
        final(members).wf(),
        final(members)@ == part_owners(parts@, owners@),
{
    let mut i: usize = 0;
    proof {
        assert(members@ =~= part_owners(parts@.take(0), owners@));
    }
    while i < parts.len()
        invariant
            i <= parts@.len(),
            owners@.len() == parts@.len(),
            parts@.no_duplicates(),
            members.wf(),
            members@ == part_owners(parts@.take(i as int), owners@),
        decreases parts@.len() - i,
    {
        let ghost before = members@;
        if let Some(row) = owners[i] {
            members.insert(parts[i], RegionId { index: row, generation: 0 });
        }
        proof {
            let shorter = parts@.take(i as int);
            let longer = parts@.take(i + 1);
            let part = parts@[i as int];
            lemma_one_more(parts@, i as int);
            assert(members@ =~= part_owners(longer, owners@));
        }
        i += 1;
    }
    assert(parts@.take(i as int) =~= parts@);
}

/// One more distinct part is found at its own place, and the others where they were.
proof fn lemma_one_more(parts: Seq<PartId>, i: int)
    requires
        parts.no_duplicates(),
        0 <= i < parts.len(),
    ensures
        !parts.take(i).contains(parts[i]),
        forall|part: PartId| #[trigger]
            parts.take(i + 1).contains(part) <==> parts.take(i).contains(part) || part == parts[i],
        forall|part: PartId| #[trigger]
            parts.take(i + 1).contains(part) ==> parts.take(i + 1).index_of(part) == (if part
                == parts[i] {
                i
            } else {
                parts.take(i).index_of(part)
            }),
{
    let shorter = parts.take(i);
    let longer = parts.take(i + 1);
    if shorter.contains(parts[i]) {
        let at = shorter.index_of(parts[i]);
        assert(parts[at] == parts[i]);
    }
    assert forall|part: PartId| #[trigger] longer.contains(part) <==> shorter.contains(part) || part
        == parts[i] by {
        if shorter.contains(part) {
            assert(longer[shorter.index_of(part)] == part);
        }
        if part == parts[i] {
            assert(longer[i] == part);
        }
        if longer.contains(part) && part != parts[i] {
            assert(shorter[longer.index_of(part)] == part);
        }
    }
    assert forall|part: PartId| #[trigger] longer.contains(part) implies longer.index_of(part) == (
    if part == parts[i] {
        i
    } else {
        shorter.index_of(part)
    }) by {
        let at = longer.index_of(part);
        assert(longer[at] == part);
        assert(parts[at] == part);
        if part != parts[i] {
            assert(shorter.contains(part));
            let held = shorter.index_of(part);
            assert(shorter[held] == part);
            assert(parts[held] == part);
        }
    }
}

/// Parts that a region of the document holds come back on one grid.
proof fn lemma_regions_undivided(
    document: &CreationDocument,
    graph: &ConstructionGraph,
    frames: Seq<ConstructionFrame>,
    owners: Seq<Option<u32>>,
)
    requires
        document.owners_listed(owners),
        document.part_frames@.len() == document.parts@.len(),
        document.region_frames@.len() == document.regions@.len(),
        graph.region_members@ == part_owners(part_ids(document.parts@), owners),
        graph.frames.members@ == part_grids(
            part_ids(document.parts@),
            named_grids(document.part_frames@, frame_ids(frames)),
        ),
    ensures
        graph.regions_undivided(),
{
    let ids = part_ids(document.parts@);
    assert forall|a: PartId, b: PartId|
        #![trigger graph.region_owning(a), graph.region_owning(b)]
        graph.has_part(a) && graph.has_part(b) && graph.region_owning(a) is Some
            && graph.region_owning(a) == graph.region_owning(b) implies graph.frame_of_part(a)
        == graph.frame_of_part(b) by {
        let i = ids.index_of(a);
        let j = ids.index_of(b);
        assert(ids.contains(a) && ids.contains(b));
        assert(owners[i] is Some && owners[j] is Some);
        assert(owners[i]->0 == owners[j]->0);
        assert(document.part_frames@[i] == document.part_frames@[j]);
    }
}

/// Welds of either sort are no more than all welds.
proof fn lemma_weld_counts(docs: Seq<WeldDoc>, count: int)
    requires
        0 <= count <= docs.len(),
    ensures
        welds_where(docs, false, count).len() + welds_where(docs, true, count).len() == count,
    decreases count,
{
    if count > 0 {
        lemma_weld_counts(docs, count - 1);
    }
}

impl CreationDocument {
    /// Puts connections, regions and features back.
    fn load_connections(
        &self,
        graph: &mut ConstructionGraph,
        checks: &Vec<JointCheck>,
        parts: &Vec<PartId>,
        grids: &Vec<ConstructionFrameId>,
    ) -> (loaded: Result<(Vec<ShapeFeatureId>, Vec<BearingId>), CreationError>)
        requires
            self.indexable(),
            checks@.len() == self.bearings@.len(),
            parts@ == part_ids(self.parts@),
            grids@.len() == self.regions@.len(),
            old(graph).wf(),
            old(graph).welds.gapless(),
            old(graph).welds.rows.values@ == attach_welds(self.parts@, self.parts@.len() as int),
            old(graph).rigid_links.gapless(),
            old(graph).rigid_links.rows.keys@.len() == 0,
            old(graph).regions.gapless(),
            old(graph).regions.rows.keys@.len() == 0,
            old(graph).shape_features.gapless(),
            old(graph).shape_features.rows.keys@.len() == 0,
            old(graph).bearings.gapless(),
            old(graph).bearings.rows.keys@.len() == 0,
            old(graph).frames.region_frames@ == Map::<RegionId, ConstructionFrameId>::empty(),
            forall|i: int|
                #![trigger grids@[i]]
                0 <= i < grids@.len() ==> old(graph).frames.frames@.dom().contains(grids@[i]),
        ensures
            match self.connections_fault(checks@) {
                Some(error) => loaded == Err::<(Vec<ShapeFeatureId>, Vec<BearingId>), CreationError>(
                    error,
                ),
                None => {
                    &&& loaded is Ok
                    &&& loaded->Ok_0.0@ == feature_ids(self.shape_features@.len())
                    &&& loaded->Ok_0.1@ == bearing_ids(self.bearings@.len())
                    &&& final(graph).wf()
                    &&& self.connections_rebuilt(final(graph))
                    &&& final(graph).frames.region_frames@ == region_grids(
                        grids@,
                        self.regions@.len() as int,
                    )
                    &&& *final(graph) == (ConstructionGraph {
                        welds: final(graph).welds,
                        rigid_links: final(graph).rigid_links,
                        regions: final(graph).regions,
                        shape_features: final(graph).shape_features,
                        bearings: final(graph).bearings,
                        frames: ConstructionFrames {
                            region_frames: final(graph).frames.region_frames,
                            ..old(graph).frames
                        },
                        ..*old(graph)
                    })
                },
            },
    {
        let ghost before = *graph;
        let unfeatured: Vec<ShapeFeatureId> = Vec::new();
        proof {
            lemma_weld_counts(self.welds@, self.welds@.len() as int);
            lemma_plain_rows(self.parts@, self.parts@.len() as int);
        }
        match load_welds(&mut graph.welds, &self.welds, false, parts, &unfeatured) {
            Ok(()) => {},
            Err(error) => {
                return Err(error);
            },
        }
        match load_rigid_links(&mut graph.rigid_links, &self.rigid_links, parts) {
            Ok(()) => {},
            Err(error) => {
                return Err(error);
            },
        }
        let regions: Vec<RegionId> = match load_regions(
            &mut graph.regions,
            &mut graph.frames.region_frames,
            &self.regions,
            grids,
        ) {
            Ok(regions) => regions,
            Err(error) => {
                return Err(error);
            },
        };
        let features: Vec<ShapeFeatureId> = match load_features(
            &mut graph.shape_features,
            &self.shape_features,
            parts,
            &regions,
        ) {
            Ok(features) => features,
            Err(error) => {
                return Err(error);
            },
        };
        match load_welds(&mut graph.welds, &self.welds, true, parts, &features) {
            Ok(()) => {},
            Err(error) => {
                return Err(error);
            },
        }
        let bearings: Vec<BearingId> = match load_bearings(
            &mut graph.bearings,
            &self.bearings,
            checks,
            parts,
            &features,
        ) {
            Ok(bearings) => bearings,
            Err(error) => {
                return Err(error);
            },
        };
        proof {
            assert forall|id: RegionId| #[trigger] graph.regions.rows@.dom().contains(id) implies graph.regions.rows@[id].wf() by {
                let at = graph.regions.rows.keys@.index_of(id);
                assert(graph.regions.rows.values@[at].wf());
            }
            assert forall|region: RegionId| #[trigger]
                graph.frames.region_frames@.dom().contains(region) implies graph.frames.frames@.dom().contains(
            graph.frames.region_frames@[region]) by {
                assert(before.frames.frames@.dom().contains(grids@[region.index as int]));
            }
        }
        Ok((features, bearings))
    }

    /// Puts wires, logical links and gear lanes back.
    fn load_controls(
        &self,
        graph: &mut ConstructionGraph,
        checks: &Vec<RingCheck>,
        parts: &Vec<PartId>,
        features: &Vec<ShapeFeatureId>,
        bearings: &Vec<BearingId>,
    ) -> (loaded: Result<Vec<BearingSocket>, CreationError>)
        requires
            self.indexable(),
            checks@.len() == self.sockets@.len(),
            parts@ == part_ids(self.parts@),
            features@ == feature_ids(self.shape_features@.len()),
            bearings@ == bearing_ids(self.bearings@.len()),
            old(graph).wf(),
            old(graph).drive_links.gapless(),
            old(graph).drive_links.rows.keys@.len() == 0,
            old(graph).input_seat_links.gapless(),
            old(graph).input_seat_links.rows.keys@.len() == 0,
            old(graph).seat_controller_links.gapless(),
            old(graph).seat_controller_links.rows.keys@.len() == 0,
            old(graph).gearboxes@ == Map::<GearLane, GearboxConfig>::empty(),
            old(graph).inputs@.dom() == Set::<PartId>::empty(),
        ensures
            match self.controls_fault(checks@) {
                Some(error) => loaded == Err::<Vec<BearingSocket>, CreationError>(error),
                None => {
                    &&& loaded is Ok
                    &&& loaded->Ok_0@ == sockets_of(self.sockets@, parts@, features@)
                    &&& final(graph).wf()
                    &&& self.controls_rebuilt(final(graph))
                    &&& *final(graph) == (ConstructionGraph {
                        drive_links: final(graph).drive_links,
                        input_seat_links: final(graph).input_seat_links,
                        seat_controller_links: final(graph).seat_controller_links,
                        gearboxes: final(graph).gearboxes,
                        ..*old(graph)
                    })
                },
            },
    {
        match load_wires(&mut graph.drive_links, &self.drive_links, parts, bearings) {
            Ok(()) => {},
            Err(error) => {
                return Err(error);
            },
        }
        match load_input_links(&mut graph.input_seat_links, &self.input_seat_links, parts) {
            Ok(()) => {},
            Err(error) => {
                return Err(error);
            },
        }
        match load_seat_links(
            &mut graph.seat_controller_links,
            &self.seat_controller_links,
            parts,
        ) {
            Ok(()) => {},
            Err(error) => {
                return Err(error);
            },
        }
        match load_lanes(&mut graph.gearboxes, &self.gearbox_configs, parts) {
            Ok(()) => {},
            Err(error) => {
                return Err(error);
            },
        }
        load_sockets(&self.sockets, checks, parts, features)
    }

    /// Rebuilds the construction that this document describes.
    ///
    /// `checks` holds what measuring each row gave, and `owners` the region
    /// whose box holds each part, if one does. Parts come back first so that
    /// their handles resolve every later reference, then connections, then
    /// controls.
    pub fn into_graph(self, checks: &LoadChecks, owners: &Vec<Option<u32>>) -> (loaded: Result<
        LoadedCreation,
        CreationError,
    >)
        requires
            self.indexable(),
            checks.covers(&self),
            self.owners_listed(owners@),
        ensures
            match self.load_fault(checks) {
                Some(error) => loaded == Err::<LoadedCreation, CreationError>(error),
                None => loaded is Ok && self.rebuilt(checks.frames@, owners@, loaded->Ok_0),
            },
    {
        match self.check_header(&checks.frames) {
            Ok(()) => {},
            Err(error) => {
                return Err(error);
            },
        }
        let mut graph: ConstructionGraph = ConstructionGraph::new();
        proof {
            assert(graph.transmission_welds@.dom() =~= Set::<PartId>::empty());
            assert(graph.inputs@.dom() =~= Set::<PartId>::empty());
        }
        let ids: Vec<ConstructionFrameId> = place_frames(&mut graph, &checks.frames);
        proof {
            assert forall|i: int| #![trigger ids@[i]] 0 <= i < ids@.len() implies graph.frames.frames@.dom().contains(
            ids@[i]) by {
                let at = ids@[i].0 as int;
                assert(graph.frames.frames.keys@[at] == ids@[i]);
                graph.frames.frames.lemma_index(at);
            }
        }
        let parts: Vec<PartId> = match self.load_parts(&mut graph, &checks.parts, &ids) {
            Ok(parts) => parts,
            Err(error) => {
                return Err(error);
            },
        };
        let ghost placed = graph;
        let grids: Vec<ConstructionFrameId> = name_grids(&self.region_frames, &ids);
        proof {
            assert forall|i: int| #![trigger grids@[i]] 0 <= i < grids@.len() implies graph.frames.frames@.dom().contains(
            grids@[i]) by {
                assert(grids@[i] == ids@[self.region_frames@[i] as int]);
            }
        }
        let (features, bearings) = match self.load_connections(
            &mut graph,
            &checks.joints,
            &parts,
            &grids,
        ) {
            Ok(ids) => ids,
            Err(error) => {
                return Err(error);
            },
        };
        let ghost connected = graph;
        let sockets: Vec<BearingSocket> = match self.load_controls(
            &mut graph,
            &checks.rings,
            &parts,
            &features,
            &bearings,
        ) {
            Ok(sockets) => sockets,
            Err(error) => {
                return Err(error);
            },
        };
        own_parts(&mut graph.region_members, &parts, owners);
        proof {
            assert(self.parts_rebuilt(&placed));
            assert(self.parts_rebuilt(&graph));
            assert(self.connections_rebuilt(&connected));
            assert(self.connections_rebuilt(&graph));
            lemma_regions_undivided(&self, &graph, valid_frames(checks.frames@), owners@);
        }
        Ok(LoadedCreation { name: self.name, graph, sockets })
    }
}

/// A document is refused for its version first, then for the number of parts
/// and of regions on grids, then for its first faulty grid, and then for the
/// first part or region that names none.
pub proof fn documents_are_refused_for_their_header(
    document: &CreationDocument,
    frames: Seq<Result<ConstructionFrame, FrameError>>,
    i: int,
)
    ensures
        ({
            let fault = document.header_fault(frames);
            let counted = document.part_frames@.len() == document.parts@.len();
            let regions_counted = document.region_frames@.len() == document.regions@.len();
            let current = document.version == 17;
            &&& !current ==> fault == Some(CreationError::UnsupportedVersion(document.version))
            &&& current && !counted ==> fault == Some(CreationError::FrameMembershipCount)
            &&& current && counted && !regions_counted ==> fault == Some(
                CreationError::RegionFrameMembershipCount,
            )
            &&& fault is None ==> current && counted && regions_counted
            &&& fault is None && 0 <= i < frames.len() ==> frames[i] is Ok
            &&& fault is None && 0 <= i < document.part_frames@.len() ==> document.part_frames@[i]
                < frames.len()
            &&& fault is None && 0 <= i < document.region_frames@.len()
                ==> document.region_frames@[i] < frames.len()
            &&& current && counted && regions_counted && 0 <= i < frames.len() && frames[i] is Err
                && (forall|j: int| #![trigger frames[j]] 0 <= j < i ==> frames[j] is Ok) ==> fault
                == Some(CreationError::Frame(frames[i]->Err_0))
        }),
{
    let faults = frame_faults(frames);
    let parts = membership_faults(document.part_frames@, frames.len());
    let regions = membership_faults(document.region_frames@, frames.len());
    if 0 <= i < frames.len() {
        the_earliest_fault_is_told(faults, i);
        if frames[i] is Err && forall|j: int| #![trigger frames[j]] 0 <= j < i ==> frames[j] is Ok {
            assert forall|j: int| #![trigger faults[j]] 0 <= j < i implies faults[j] is None by {
                assert(frames[j] is Ok);
            }
        }
    }
    if 0 <= i < document.part_frames@.len() {
        the_earliest_fault_is_told(parts, i);
    }
    if 0 <= i < document.region_frames@.len() {
        the_earliest_fault_is_told(regions, i);
    }
}

/// Grids come back as they were written, behind the default one; where the
/// first one written is the default one, it is not doubled. Each row's identity
/// is that of the grid it describes.
pub proof fn grids_come_back_behind_the_default(frames: Seq<ConstructionFrame>, i: int)
    requires
        frames.len() < u64::MAX,
    ensures
        frames_back(frames).len() > 0 && frames_back(frames)[0] == ConstructionFrame::identity(),
        0 <= i < frames.len() ==> {
            let at = frame_ids(frames)[i].0 as int;
            &&& 0 <= at < frames_back(frames).len()
            &&& frames_back(frames)[at] == frames[i] || (i == 0 && at == 0 && frames[0].same_value(
                ConstructionFrame::identity(),
            ))
        },
        frames.len() > 0 && !frames[0].same_value(ConstructionFrame::identity()) ==> frames_back(
            frames,
        ).len() == frames.len() + 1,
        frames.len() > 0 && frames[0].same_value(ConstructionFrame::identity()) ==> frames_back(
            frames,
        ).len() == frames.len(),
{
}

/// A part stands on the grid that its row names, and in the region that holds
/// it, if one does.
pub proof fn parts_come_back_on_their_grids(
    parts: Seq<PartId>,
    rows: Seq<u32>,
    ids: Seq<ConstructionFrameId>,
    owners: Seq<Option<u32>>,
    i: int,
)
    requires
        parts.no_duplicates(),
        0 <= i < parts.len() == rows.len(),
        owners.len() == parts.len(),
    ensures
        part_grids(parts, named_grids(rows, ids)).dom().contains(parts[i]),
        part_grids(parts, named_grids(rows, ids))[parts[i]] == ids[rows[i] as int],
        part_owners(parts, owners).dom().contains(parts[i]) <==> owners[i] is Some,
        owners[i] is Some ==> part_owners(parts, owners)[parts[i]].index == owners[i]->0,
        forall|part: PartId| !parts.contains(part) ==> !#[trigger] part_owners(
            parts,
            owners,
        ).dom().contains(part),
{
    assert(parts.contains(parts[i]));
    assert(parts[parts.index_of(parts[i])] == parts[i]);
    assert(parts.index_of(parts[i]) == i);
}

/// What is read first is told first: the header before parts, parts before
/// connections, and connections before controls.
pub proof fn documents_are_refused_in_reading_order(document: &CreationDocument, checks: &LoadChecks)
    ensures
        ({
            let fault = document.load_fault(checks);
            let header = document.header_fault(checks.frames@);
            let parts = document.parts_fault(checks.parts@);
            let connections = document.connections_fault(checks.joints@);
            let controls = document.controls_fault(checks.rings@);
            &&& header is Some ==> fault == header
            &&& header is None && parts is Some ==> fault == parts
            &&& header is None && parts is None && connections is Some ==> fault == connections
            &&& header is None && parts is None && connections is None ==> fault == controls
        }),
        ({
            let parts = part_ids(document.parts@);
            let features = feature_ids(document.shape_features@.len());
            let welds = first_fault(
                weld_faults(
                    welds_where(document.welds@, false, document.welds@.len() as int),
                    parts,
                    Seq::<ShapeFeatureId>::empty(),
                ),
            );
            let rigid = first_fault(rigid_faults(document.rigid_links@, parts));
            let regions = first_fault(region_faults(document.regions@));
            let treated = first_fault(
                feature_faults(document.shape_features@, parts, region_ids(document.regions@.len())),
            );
            let joints = joints_fault(document.bearings@, checks.joints@, parts, features);
            let fault = document.connections_fault(checks.joints@);
            &&& fault is None ==> welds is None && rigid is None && regions is None && treated
                is None && joints is None
            &&& welds is Some ==> fault == welds
            &&& welds is None && rigid is Some ==> fault == rigid
            &&& welds is None && rigid is None && regions is Some ==> fault == regions
            &&& welds is None && rigid is None && regions is None && treated is Some ==> fault
                == treated
        }),
        ({
            let parts = part_ids(document.parts@);
            let wires = first_fault(
                wire_faults(document.drive_links@, parts, bearing_ids(document.bearings@.len())),
            );
            let lanes = first_fault(lane_faults(document.gearbox_configs@, parts));
            let inputs = first_fault(input_link_faults(document.input_seat_links@, parts));
            let seats = first_fault(seat_link_faults(document.seat_controller_links@, parts));
            let fault = document.controls_fault(checks.rings@);
            &&& fault is None ==> wires is None && lanes is None && inputs is None && seats is None
            &&& wires is Some ==> fault == wires
            &&& wires is None && inputs is Some ==> fault == inputs
            &&& wires is None && inputs is None && seats is Some ==> fault == seats
            &&& wires is None && inputs is None && seats is None && lanes is Some ==> fault == lanes
        }),
{
}

} // verus!
